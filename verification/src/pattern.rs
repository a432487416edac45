//! Regular expressions, as `regex_lite` reads them.

use crate::braze::error::{quoted, quoted_text};
use crate::error::Error;
use crate::text::{is_shown, lemma_shown_between, opt_text, owned, strs};
use vstd::prelude::*;

verus! {

/// What `regex_lite` says is wrong with a pattern, if anything.
pub uninterp spec fn pattern_problem(pattern: Seq<char>) -> Option<Seq<char>>;

/// Whether a pattern that compiles matches somewhere in a text.
pub uninterp spec fn pattern_matches(pattern: Seq<char>, text: Seq<char>) -> bool;

/// For each match of a pattern in a text the text of its first group, where
/// the group took part; nothing at all where the pattern does not compile.
pub uninterp spec fn first_groups(pattern: Seq<char>, text: Seq<char>) -> Option<
    Seq<Option<Seq<char>>>,
>;

/// `regex_lite::Regex::new`: compiles the pattern and hands back the text of
/// the error, or `None` where it compiles.
#[verifier::external_body]
fn compile_problem(pattern: &str) -> (r: Option<String>)
    ensures
        opt_text(r) == pattern_problem(pattern@),
{
    regex_lite::Regex::new(pattern).err().map(|e| e.to_string())
}

/// `regex_lite::Regex::is_match`: whether the pattern matches somewhere in
/// the text. The pattern has to compile.
#[verifier::external_body]
fn compiled_matches(pattern: &str, text: &str) -> (r: bool)
    requires
        pattern_problem(pattern@) is None,
    ensures
        r == pattern_matches(pattern@, text@),
{
    regex_lite::Regex::new(pattern).map(|re| re.is_match(text)).unwrap_or_default()
}

/// What the groups of the matches hold.
pub open spec fn group_texts(v: Seq<Option<String>>) -> Seq<Option<Seq<char>>> {
    Seq::new(v.len(), |i: int| opt_text(v[i]))
}

/// `regex_lite::Regex::captures_iter`: the first group of each match, in the
/// order of the matches, `None` where the group took no part. Nothing where
/// the pattern does not compile.
#[verifier::external_body]
fn captured_groups(pattern: &str, text: &str) -> (r: Option<Vec<Option<String>>>)
    ensures
        match r {
            Some(v) => first_groups(pattern@, text@) == Some(group_texts(v@)),
            None => first_groups(pattern@, text@) is None,
        },
{
    regex_lite::Regex::new(pattern).ok().map(|re| {
        re.captures_iter(text)
            .map(|c| c.get(1).map(|m| m.as_str().to_string()))
            .collect()
    })
}

/// The texts of the groups that took part.
pub open spec fn taken(groups: Seq<Option<Seq<char>>>) -> Seq<Seq<char>>
    decreases groups.len(),
{
    if groups.len() == 0 {
        Seq::empty()
    } else {
        match groups.last() {
            Some(t) => taken(groups.drop_last()).push(t),
            None => taken(groups.drop_last()),
        }
    }
}

/// Keeps the groups that took part.
pub fn taken_groups(groups: Vec<Option<String>>) -> (r: Vec<String>)
    ensures
        strs(r@) == taken(group_texts(groups@)),
{
    let ghost all = group_texts(groups@);
    let mut out: Vec<String> = Vec::new();
    let mut i: usize = 0;
    assert(strs(out@) =~= taken(all.take(0)));
    while i < groups.len()
        invariant
            i <= groups@.len(),
            all == group_texts(groups@),
            strs(out@) == taken(all.take(i as int)),
        decreases groups@.len() - i,
    {
        proof {
            assert(all.take(i + 1).drop_last() =~= all.take(i as int));
            assert(all.take(i + 1).last() == opt_text(groups@[i as int]));
        }
        let ghost before = out@;
        if let Some(t) = &groups[i] {
            out.push(t.clone());
            assert(strs(out@) =~= strs(before).push(t@));
        }
        i = i + 1;
    }
    assert(all.take(i as int) =~= all);
    out
}

/// The first group of each match of the pattern in the text; nothing where
/// the pattern does not compile.
pub fn capture_first_groups(pattern: &str, text: &str) -> (r: Vec<String>)
    ensures
        strs(r@) == match first_groups(pattern@, text@) {
            Some(g) => taken(g),
            None => Seq::empty(),
        },
{
    match captured_groups(pattern, text) {
        Some(v) => taken_groups(v),
        None => {
            let v: Vec<String> = Vec::new();
            assert(strs(v@) =~= Seq::empty());
            v
        },
    }
}

/// A pattern that compiles.
pub struct NamePattern {
    source: String,
}

impl NamePattern {
    #[verifier::type_invariant]
    spec fn compiles(self) -> bool {
        pattern_problem(self.source@) is None
    }

    /// The text of the pattern.
    pub closed spec fn text(self) -> Seq<char> {
        self.source@
    }

    /// Takes a pattern over, or says what is wrong with it.
    pub fn compile(source: &str) -> (r: Result<NamePattern, String>)
        ensures
            match r {
                Ok(p) => pattern_problem(source@) is None && p.text() == source@,
                Err(e) => pattern_problem(source@) == Some(e@),
            },
    {
        match compile_problem(source) {
            Some(e) => Err(e),
            None => Ok(NamePattern { source: owned(source) }),
        }
    }

    pub fn as_str(&self) -> (r: &str)
        ensures
            r@ == self.text(),
    {
        self.source.as_str()
    }

    /// Whether the pattern matches somewhere in the text.
    pub fn is_match(&self, text: &str) -> (r: bool)
        ensures
            r == pattern_matches(self.text(), text@),
    {
        proof {
            use_type_invariant(self);
        }
        compiled_matches(self.source.as_str(), text)
    }
}

/// The first pattern that does not compile, and what is wrong with it.
pub open spec fn first_problem(raw: Seq<Seq<char>>) -> Option<(Seq<char>, Seq<char>)>
    decreases raw.len(),
{
    if raw.len() == 0 {
        None
    } else {
        match pattern_problem(raw[0]) {
            Some(e) => Some((raw[0], e)),
            None => first_problem(raw.drop_first()),
        }
    }
}

/// What is said of a pattern in a list that does not compile.
pub open spec fn listed_problem(key: Seq<char>, raw: Seq<char>, problem: Seq<char>) -> Seq<char> {
    key + ": invalid regex "@ + quoted(raw) + ": "@ + problem
}

/// The texts of patterns.
pub open spec fn pattern_texts(patterns: Seq<NamePattern>) -> Seq<Seq<char>> {
    patterns.map_values(|p: NamePattern| p.text())
}

/// Compiles a list of patterns, in their order. The first that does not
/// compile makes the configuration wrong; `key` is where the list stands in
/// it.
pub fn compile_patterns(raw: &Vec<String>, key: &str) -> (r: Result<Vec<NamePattern>, Error>)
    ensures
        match first_problem(strs(raw@)) {
            None => r matches Ok(v) && pattern_texts(v@) == strs(raw@),
            Some((p, e)) => r matches Err(Error::Config(m)) && m@ == listed_problem(key@, p, e),
        },
{
    let ghost all = strs(raw@);
    let mut out: Vec<NamePattern> = Vec::new();
    let mut i: usize = 0;
    assert(all.skip(0) =~= all);
    while i < raw.len()
        invariant
            i <= raw@.len(),
            all == strs(raw@),
            out@.len() == i,
            forall|j: int| 0 <= j < i ==> (#[trigger] out@[j]).text() == all[j],
            first_problem(all) == first_problem(all.skip(i as int)),
        decreases raw@.len() - i,
    {
        proof {
            assert(all.skip(i as int)[0] == raw@[i as int]@);
            assert(all.skip(i as int).drop_first() =~= all.skip(i + 1));
        }
        match NamePattern::compile(raw[i].as_str()) {
            Ok(p) => {
                out.push(p);
            },
            Err(e) => {
                let mut m = owned(key);
                m.push_str(": invalid regex ");
                m.push_str(quoted_text(raw[i].as_str()).as_str());
                m.push_str(": ");
                m.push_str(e.as_str());
                return Err(Error::Config(m));
            },
        }
        i = i + 1;
    }
    assert(pattern_texts(out@) =~= all);
    Ok(out)
}

/// One of the patterns matches the name.
pub open spec fn excluded(name: Seq<char>, patterns: Seq<NamePattern>) -> bool {
    exists|i: int| 0 <= i < patterns.len() && pattern_matches(#[trigger] patterns[i].text(), name)
}

/// Whether one of the patterns matches the name.
pub fn is_excluded(name: &str, patterns: &Vec<NamePattern>) -> (r: bool)
    ensures
        r == excluded(name@, patterns@),
{
    let mut i: usize = 0;
    while i < patterns.len()
        invariant
            i <= patterns@.len(),
            forall|j: int|
                0 <= j < i ==> !pattern_matches(#[trigger] patterns@[j].text(), name@),
        decreases patterns@.len() - i,
    {
        if patterns[i].is_match(name) {
            return true;
        }
        i = i + 1;
    }
    false
}

/// What a pattern captured is kept exactly where its group took part.
pub proof fn captured_texts_are_kept(groups: Seq<Option<Seq<char>>>, text: Seq<char>)
    ensures
        taken(groups).contains(text) <==> groups.contains(Some(text)),
        taken(groups).len() <= groups.len(),
    decreases groups.len(),
{
    if groups.len() > 0 {
        let rest = groups.drop_last();
        let last = groups.len() - 1;
        captured_texts_are_kept(rest, text);
        if rest.contains(Some(text)) {
            let i = choose|i: int| 0 <= i < rest.len() && rest[i] == Some(text);
            assert(groups[i] == Some(text));
        }
        if groups.contains(Some(text)) && !rest.contains(Some(text)) {
            let i = choose|i: int| 0 <= i < groups.len() && groups[i] == Some(text);
            if i < last {
                assert(rest[i] == Some(text));
            }
            assert(i == last);
        }
        if let Some(t) = groups.last() {
            let a = taken(rest);
            assert(taken(groups) == a.push(t));
            if a.contains(text) {
                let i = choose|i: int| 0 <= i < a.len() && a[i] == text;
                assert(a.push(t)[i] == text);
            }
            if t == text {
                assert(a.push(t)[a.len() as int] == text);
                assert(groups[last] == Some(text));
            }
            if a.push(t).contains(text) && t != text {
                let i = choose|i: int| 0 <= i < a.push(t).len() && a.push(t)[i] == text;
                assert(a[i] == text);
            }
        }
    }
}

/// A list of patterns is right exactly if every pattern compiles. Otherwise
/// the first that does not is named, with what is wrong with it.
pub proof fn first_wrong_pattern_is_named(raw: Seq<Seq<char>>)
    ensures
        first_problem(raw) is None <==> forall|i: int|
            0 <= i < raw.len() ==> pattern_problem(#[trigger] raw[i]) is None,
        first_problem(raw) matches Some(p) ==> exists|i: int|
            0 <= i < raw.len() && #[trigger] raw[i] == p.0 && pattern_problem(raw[i]) == Some(p.1)
                && (forall|j: int| 0 <= j < i ==> pattern_problem(#[trigger] raw[j]) is None),
    decreases raw.len(),
{
    if raw.len() > 0 {
        let rest = raw.drop_first();
        first_wrong_pattern_is_named(rest);
        if pattern_problem(raw[0]) is None {
            assert forall|i: int| 0 < i < raw.len() implies #[trigger] raw[i] == rest[i - 1] by {}
            assert forall|i: int| 0 <= i < rest.len() implies #[trigger] rest[i] == raw[i + 1] by {}
            if let Some(p) = first_problem(rest) {
                let i = choose|i: int|
                    0 <= i < rest.len() && #[trigger] rest[i] == p.0 && pattern_problem(rest[i])
                        == Some(p.1) && (forall|j: int|
                        0 <= j < i ==> pattern_problem(#[trigger] rest[j]) is None);
                assert(raw[i + 1] == p.0);
                assert forall|j: int| 0 <= j < i + 1 implies pattern_problem(
                    #[trigger] raw[j],
                ) is None by {
                    if j > 0 {
                        assert(raw[j] == rest[j - 1]);
                    }
                }
            } else {
                assert forall|i: int| 0 <= i < raw.len() implies pattern_problem(
                    #[trigger] raw[i],
                ) is None by {
                    if i > 0 {
                        assert(raw[i] == rest[i - 1]);
                    }
                }
            }
        } else {
            assert(raw[0] == first_problem(raw).unwrap().0);
        }
    }
}

/// What is said of a wrong pattern begins with where it stands, and gives the
/// pattern and what is wrong with it.
pub proof fn wrong_pattern_is_described(key: Seq<char>, raw: Seq<char>, problem: Seq<char>)
    ensures
        key.is_prefix_of(listed_problem(key, raw, problem)),
        is_shown(quoted(raw), listed_problem(key, raw, problem)),
        problem.is_suffix_of(listed_problem(key, raw, problem)),
{
    let t = listed_problem(key, raw, problem);
    let a = key + ": invalid regex "@;
    assert(t.take(key.len() as int) =~= key);
    assert(t =~= a + quoted(raw) + (": "@ + problem));
    lemma_shown_between(a, quoted(raw), ": "@ + problem);
    assert(t.skip(t.len() - problem.len()) =~= problem);
}

} // verus!
