//! Documents that consist of a YAML header and a body.
//!
//! The document starts with a line `---`, and the header ends with a line
//! that is exactly `---`. The body behind it is kept as it is.

use crate::error::Error;
use crate::text::{
    join, join_text, lemma_join_split, lemma_split_line, lemma_split_parts, owned, split,
    split_text, starts_with_text, str_eq, strs,
};
use vstd::prelude::*;

verus! {

/// A line that ends the header. A carriage return before the line break does
/// no harm.
pub open spec fn is_fence(line: Seq<char>) -> bool {
    line == "---"@ || line == "---\r"@
}

/// The first line that ends the header.
pub open spec fn first_fence(lines: Seq<Seq<char>>) -> Option<int>
    decreases lines.len(),
{
    if lines.len() == 0 {
        None
    } else if is_fence(lines[0]) {
        Some(0)
    } else {
        match first_fence(lines.drop_first()) {
            Some(i) => Some(i + 1),
            None => None,
        }
    }
}

/// The lines, each with its line break.
pub open spec fn with_breaks(lines: Seq<Seq<char>>) -> Seq<char>
    decreases lines.len(),
{
    if lines.len() == 0 {
        Seq::empty()
    } else {
        with_breaks(lines.drop_last()) + lines.last() + "\n"@
    }
}

/// Header and body of what follows the opening line.
pub open spec fn header_and_body(s: Seq<char>) -> Option<(Seq<char>, Seq<char>)> {
    let lines = split(s, '\n');
    match first_fence(lines) {
        Some(k) => Some((with_breaks(lines.take(k)), join(lines.skip(k + 1), "\n"@))),
        None => None,
    }
}

/// The text without a byte order mark at its start.
pub open spec fn without_mark(s: Seq<char>) -> Seq<char> {
    if s.len() > 0 && s[0] == '\u{feff}' {
        s.drop_first()
    } else {
        s
    }
}

/// What follows the opening line.
pub open spec fn after_opening(s: Seq<char>) -> Option<Seq<char>> {
    if "---\n"@.is_prefix_of(s) {
        Some(s.skip(4))
    } else if "---\r\n"@.is_prefix_of(s) {
        Some(s.skip(5))
    } else {
        None
    }
}

/// What a document holds.
pub open spec fn parsed(text: Seq<char>) -> Result<(Seq<char>, Seq<char>), Seq<char>> {
    match after_opening(without_mark(text)) {
        None => Err("missing opening `---` frontmatter fence"@),
        Some(rest) => match header_and_body(rest) {
            None => Err("missing closing `---` frontmatter fence"@),
            Some(parts) => Ok(parts),
        },
    }
}

/// The document of a header and a body.
pub open spec fn rendered(yaml: Seq<char>, body: Seq<char>) -> Seq<char> {
    "---\n"@ + ended(yaml) + "---\n"@ + body
}

/// The text with a line break at its end.
pub open spec fn ended(s: Seq<char>) -> Seq<char> {
    if s.len() > 0 && s.last() == '\n' {
        s
    } else {
        s + "\n"@
    }
}

fn fence_index(lines: &Vec<String>) -> (r: Option<usize>)
    ensures
        match r {
            Some(i) => i < lines@.len() && first_fence(strs(lines@)) == Some(i as int),
            None => first_fence(strs(lines@)) is None,
        },
{
    let ghost ls = strs(lines@);
    let mut i: usize = 0;
    assert(ls.skip(0) =~= ls);
    while i < lines.len()
        invariant
            i <= lines@.len(),
            ls == strs(lines@),
            first_fence(ls) == match first_fence(ls.skip(i as int)) {
                Some(k) => Some(k + i),
                None => None::<int>,
            },
        decreases lines@.len() - i,
    {
        proof {
            assert(ls.skip(i as int)[0] == lines@[i as int]@);
            assert(ls.skip(i as int).drop_first() =~= ls.skip(i + 1));
        }
        if str_eq(lines[i].as_str(), "---") || str_eq(lines[i].as_str(), "---\r") {
            return Some(i);
        }
        i = i + 1;
    }
    None
}

/// Splits a document into its header, which is YAML, and its body.
pub fn parse(path: &str, text: &str) -> (r: Result<(String, String), Error>)
    ensures
        match parsed(text@) {
            Ok((yaml, body)) => r matches Ok(p) && p.0@ == yaml && p.1@ == body,
            Err(m) => r matches Err(Error::InvalidFormat { path: p, message }) && p@ == path@
                && message@ == m,
        },
{
    let c = crate::text::chars_of(text);
    let n: usize = c.len();
    let start: usize = if n > 0 && c[0] == '\u{feff}' {
        1
    } else {
        0
    };
    let unmarked = crate::text::string_of(&c, start, n);
    assert(unmarked@ =~= without_mark(text@));
    proof {
        reveal_strlit("---\n");
        reveal_strlit("---\r\n");
    }
    let skip: usize = if starts_with_text(unmarked.as_str(), "---\n") {
        4
    } else if starts_with_text(unmarked.as_str(), "---\r\n") {
        5
    } else {
        return Err(
            Error::InvalidFormat {
                path: owned(path),
                message: owned("missing opening `---` frontmatter fence"),
            },
        );
    };
    let u = crate::text::chars_of(unmarked.as_str());
    let m: usize = u.len();
    let rest = crate::text::string_of(&u, skip, m);
    assert(rest@ =~= unmarked@.skip(skip as int));
    let lines = split_text(rest.as_str(), '\n');
    let ghost ls = strs(lines@);
    match fence_index(&lines) {
        None => Err(
            Error::InvalidFormat {
                path: owned(path),
                message: owned("missing closing `---` frontmatter fence"),
            },
        ),
        Some(k) => {
            let count: usize = lines.len();
            let mut yaml = String::new();
            let mut i: usize = 0;
            assert(ls.take(0) =~= Seq::empty());
            while i < k
                invariant
                    i <= k,
                    k < lines@.len(),
                    ls == strs(lines@),
                    yaml@ == with_breaks(ls.take(i as int)),
                decreases k - i,
            {
                assert(ls.take(i + 1).drop_last() =~= ls.take(i as int));
                assert(ls.take(i + 1).last() == lines@[i as int]@);
                yaml.push_str(lines[i].as_str());
                yaml.push_str("\n");
                i = i + 1;
            }
            let mut tail: Vec<String> = Vec::new();
            let mut j: usize = k + 1;
            while j < count
                invariant
                    k < j <= count,
                    count == lines@.len(),
                    tail@.len() == j - k - 1,
                    forall|x: int| 0 <= x < tail@.len() ==> (#[trigger] tail@[x])@ == lines@[x + k + 1]@,
                decreases count - j,
            {
                tail.push(lines[j].clone());
                j = j + 1;
            }
            assert(strs(tail@) =~= ls.skip(k + 1));
            Ok((yaml, join_text(&tail, "\n")))
        },
    }
}

/// Puts a header, which is YAML, and a body into one document.
pub fn render(yaml: &str, body: &str) -> (r: String)
    ensures
        r@ == rendered(yaml@, body@),
{
    let mut out = owned("---\n");
    out.push_str(yaml);
    let c = crate::text::chars_of(yaml);
    let n: usize = c.len();
    if n == 0 || c[n - 1] != '\n' {
        out.push_str("\n");
    }
    out.push_str("---\n");
    out.push_str(body);
    assert(out@ =~= rendered(yaml@, body@));
    out
}

/// Lines before the first fence do not change what follows.
proof fn lemma_fence_behind(a: Seq<Seq<char>>, f: Seq<char>, b: Seq<Seq<char>>)
    requires
        forall|i: int| 0 <= i < a.len() ==> !is_fence(#[trigger] a[i]),
        is_fence(f),
    ensures
        first_fence(a + seq![f] + b) == Some(a.len() as int),
    decreases a.len(),
{
    let all = a + seq![f] + b;
    if a.len() == 0 {
        assert(all[0] == f);
    } else {
        assert(all[0] == a[0]);
        assert(all.drop_first() =~= a.drop_first() + seq![f] + b);
        assert forall|i: int| 0 <= i < a.drop_first().len() implies !is_fence(
            #[trigger] a.drop_first()[i],
        ) by {
            assert(a.drop_first()[i] == a[i + 1]);
        }
        lemma_fence_behind(a.drop_first(), f, b);
    }
}

/// Lines with their breaks are the lines put together with a break at the
/// end.
proof fn lemma_breaks(lines: Seq<Seq<char>>)
    requires
        lines.len() > 0,
    ensures
        with_breaks(lines) == join(lines, "\n"@) + "\n"@,
    decreases lines.len(),
{
    if lines.len() == 1 {
        assert(lines.drop_last() =~= Seq::empty());
        assert(with_breaks(lines.drop_last()) =~= Seq::empty());
        assert(with_breaks(lines) =~= lines[0] + "\n"@);
    } else {
        lemma_breaks(lines.drop_last());
        assert(with_breaks(lines) =~= join(lines, "\n"@) + "\n"@);
    }
}

/// The header does not itself hold a line that would end it.
pub open spec fn is_header(yaml: Seq<char>) -> bool {
    forall|i: int|
        0 <= i < split(yaml, '\n').len() ==> !is_fence(#[trigger] split(yaml, '\n')[i])
}

/// What is put into a document comes out of it again: the body as it was, and
/// the header with a line break at its end.
pub proof fn document_round_trip(yaml: Seq<char>, body: Seq<char>)
    requires
        is_header(yaml),
    ensures
        parsed(rendered(yaml, body)) == Ok::<(Seq<char>, Seq<char>), Seq<char>>(
            (ended(yaml), body),
        ),
{
    reveal_strlit("---\n");
    reveal_strlit("---\r\n");
    reveal_strlit("---");
    reveal_strlit("---\r");
    reveal_strlit("\n");
    let text = rendered(yaml, body);
    assert(text[0] == '-');
    assert(without_mark(text) == text);
    assert("---\n"@.is_prefix_of(text)) by {
        assert(text.subrange(0, 4) =~= "---\n"@);
    }
    let rest = text.skip(4);
    assert(rest =~= ended(yaml) + "---\n"@ + body);
    // The header without its last break.
    let bare = if yaml.len() > 0 && yaml.last() == '\n' {
        yaml.drop_last()
    } else {
        yaml
    };
    assert(ended(yaml) =~= bare + seq!['\n']);
    assert(rest =~= (bare + seq!['\n']) + (("---"@ + seq!['\n']) + body));
    lemma_split_parts(bare, ("---"@ + seq!['\n']) + body, '\n');
    assert(rest =~= bare + seq!['\n'] + (("---"@ + seq!['\n']) + body));
    lemma_split_parts("---"@, body, '\n');
    assert(("---"@ + seq!['\n']) + body =~= "---"@ + seq!['\n'] + body);
    lemma_split_line("---"@, '\n');
    let head = split(bare, '\n');
    let tail = split(body, '\n');
    let lines = split(rest, '\n');
    assert(lines =~= head + seq!["---"@] + tail);
    assert(is_header(bare)) by {
        if yaml.len() > 0 && yaml.last() == '\n' {
            assert(yaml =~= bare + seq!['\n'] + Seq::empty());
            lemma_split_parts(bare, Seq::empty(), '\n');
            assert forall|i: int| 0 <= i < head.len() implies !is_fence(
                #[trigger] split(bare, '\n')[i],
            ) by {
                assert(split(yaml, '\n')[i] == head[i]);
            }
        }
    }
    assert forall|i: int| 0 <= i < head.len() implies !is_fence(#[trigger] head[i]) by {
        assert(split(bare, '\n')[i] == head[i]);
    }
    lemma_fence_behind(head, "---"@, tail);
    let k = head.len() as int;
    assert(lines.take(k) =~= head);
    assert(lines.skip(k + 1) =~= tail);
    assert("\n"@ =~= seq!['\n']);
    lemma_join_split(bare, '\n', "\n"@);
    lemma_join_split(body, '\n', "\n"@);
    lemma_breaks(head);
}

/// A byte order mark before a document changes nothing, nor does a carriage
/// return at the end of its opening line.
pub proof fn marks_do_no_harm(text: Seq<char>, rest: Seq<char>)
    requires
        text.len() == 0 || text[0] != '\u{feff}',
    ensures
        parsed(seq!['\u{feff}'] + text) == parsed(text),
        parsed("---\r\n"@ + rest) == parsed("---\n"@ + rest),
{
    let m = seq!['\u{feff}'] + text;
    assert(m.drop_first() =~= text);
    reveal_strlit("---\r\n");
    reveal_strlit("---\n");
    let a = "---\r\n"@ + rest;
    let b = "---\n"@ + rest;
    assert(a[3] == '\r');
    assert(!"---\n"@.is_prefix_of(a)) by {
        if "---\n"@.is_prefix_of(a) {
            assert("---\n"@[3] == a.take(4)[3]);
        }
    }
    assert("---\r\n"@ =~= a.take(5));
    assert("---\n"@ =~= b.take(4));
    assert(a.skip(5) =~= rest);
    assert(b.skip(4) =~= rest);
}

/// A document has to open with a fence: a text that starts with anything else
/// is refused as one that does not. A text whose opening fence is never
/// closed is refused as well.
pub proof fn documents_are_fenced(text: Seq<char>, rest: Seq<char>)
    ensures
        text.len() > 0 && text[0] != '-' && text[0] != '\u{feff}' ==> parsed(text) == Err::<
            (Seq<char>, Seq<char>),
            Seq<char>,
        >("missing opening `---` frontmatter fence"@),
        parsed(Seq::empty()) == Err::<(Seq<char>, Seq<char>), Seq<char>>(
            "missing opening `---` frontmatter fence"@,
        ),
        !rest.contains('-') ==> parsed("---\n"@ + rest) == Err::<
            (Seq<char>, Seq<char>),
            Seq<char>,
        >("missing closing `---` frontmatter fence"@),
{
    reveal_strlit("---\r\n");
    reveal_strlit("---\n");
    reveal_strlit("---");
    reveal_strlit("---\r");
    if text.len() > 0 && text[0] != '-' && text[0] != '\u{feff}' {
        assert(!"---\n"@.is_prefix_of(text)) by {
            assert("---\n"@[0] == '-');
        }
        assert(!"---\r\n"@.is_prefix_of(text)) by {
            assert("---\r\n"@[0] == '-');
        }
    }
    let b = "---\n"@ + rest;
    assert("---\n"@ =~= b.take(4));
    assert(b.skip(4) =~= rest);
    if !rest.contains('-') {
        lemma_parts_hold_no_more(rest, '\n', '-');
        lemma_no_fence(split(rest, '\n'));
    }
}

/// The parts of a text hold no character that the text does not.
proof fn lemma_parts_hold_no_more(s: Seq<char>, sep: char, x: char)
    requires
        !s.contains(x),
    ensures
        forall|i: int|
            0 <= i < split(s, sep).len() ==> !(#[trigger] split(s, sep)[i]).contains(x),
    decreases s.len(),
{
    s.index_of_first_ensures(sep);
    match s.index_of_first(sep) {
        None => {
            lemma_split_line(s, sep);
        },
        Some(i) => {
            let a = s.take(i);
            let b = s.skip(i + 1);
            assert(!a.contains(x)) by {
                if a.contains(x) {
                    let k = choose|k: int| 0 <= k < a.len() && a[k] == x;
                    assert(s[k] == x);
                }
            }
            assert(!b.contains(x)) by {
                if b.contains(x) {
                    let k = choose|k: int| 0 <= k < b.len() && b[k] == x;
                    assert(s[i + 1 + k] == x);
                }
            }
            lemma_parts_hold_no_more(b, sep, x);
            let rest = split(b, sep);
            assert(split(s, sep) == seq![a] + rest);
            assert forall|k: int| 0 <= k < split(s, sep).len() implies !(#[trigger] split(
                s,
                sep,
            )[k]).contains(x) by {
                if k > 0 {
                    assert(split(s, sep)[k] == rest[k - 1]);
                }
            }
        },
    }
}

proof fn lemma_no_fence(lines: Seq<Seq<char>>)
    requires
        forall|i: int| 0 <= i < lines.len() ==> !(#[trigger] lines[i]).contains('-'),
    ensures
        first_fence(lines) is None,
    decreases lines.len(),
{
    if lines.len() > 0 {
        reveal_strlit("---");
        reveal_strlit("---\r");
        assert("---"@[0] == '-');
        assert("---\r"@[0] == '-');
        assert(!lines[0].contains('-'));
        assert(!is_fence(lines[0])) by {
            if is_fence(lines[0]) {
                assert(lines[0][0] == '-');
            }
        }
        assert forall|i: int| 0 <= i < lines.drop_first().len() implies !(
        #[trigger] lines.drop_first()[i]).contains('-') by {
            assert(lines.drop_first()[i] == lines[i + 1]);
        }
        lemma_no_fence(lines.drop_first());
    }
}

/// A text that is ended is the text itself, with a line break at its end and
/// no more than one added.
pub proof fn ending_adds_one_line_break(s: Seq<char>)
    ensures
        ended(s).len() > 0,
        ended(s).last() == '\n',
        s.is_prefix_of(ended(s)),
        ended(s).len() <= s.len() + 1,
        ended(ended(s)) == ended(s),
        s.len() > 0 && s.last() == '\n' ==> ended(s) == s,
{
    reveal_strlit("\n");
    assert(ended(s).take(s.len() as int) =~= s);
}

} // verus!
