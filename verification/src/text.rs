//! Text: how strings are modelled, compared and put together.
//!
//! A string is modelled by the sequence of its characters.

use vstd::prelude::*;

verus! {

broadcast use vstd::string::group_string_axioms;

/// The texts held by a sequence of strings.
pub open spec fn strs(v: Seq<String>) -> Seq<Seq<char>> {
    v.map_values(|s: String| s@)
}

/// The text held by an optional string.
pub open spec fn opt_text(o: Option<String>) -> Option<Seq<char>> {
    match o {
        Some(s) => Some(s@),
        None => None,
    }
}

/// An optional text with absence read as the empty text.
pub open spec fn text_or_empty(o: Option<Seq<char>>) -> Seq<char> {
    match o {
        Some(s) => s,
        None => Seq::empty(),
    }
}

/// `a` stands before `b` in the order of strings: by the first character
/// in which they differ, a proper prefix before what extends it.
pub open spec fn text_lt(a: Seq<char>, b: Seq<char>) -> bool
    decreases a.len(),
{
    if b.len() == 0 {
        false
    } else if a.len() == 0 {
        true
    } else if a[0] != b[0] {
        a[0] < b[0]
    } else {
        text_lt(a.drop_first(), b.drop_first())
    }
}

/// `a` stands before `b` or equals it.
pub open spec fn text_le(a: Seq<char>, b: Seq<char>) -> bool {
    a == b || text_lt(a, b)
}

/// The character of a decimal digit.
pub open spec fn digit_char(d: nat) -> char {
    ('0' as u32 + d) as char
}

/// The decimal notation of a number, without leading zeros.
pub open spec fn decimal(n: nat) -> Seq<char>
    decreases n,
{
    if n < 10 {
        seq![digit_char(n)]
    } else {
        decimal(n / 10).push(digit_char(n % 10))
    }
}

/// `needle` occurs in `hay` as a contiguous run.
pub open spec fn occurs_in(needle: Seq<char>, hay: Seq<char>) -> bool {
    exists|i: int| #[trigger] occurs_at(needle, hay, i)
}

/// `needle` occurs in `hay` starting at position `i`.
pub open spec fn occurs_at(needle: Seq<char>, hay: Seq<char>, i: int) -> bool {
    &&& 0 <= i <= hay.len() - needle.len()
    &&& hay.subrange(i, i + needle.len()) == needle
}

/// The texts one after the other with the separator between them.
pub open spec fn join(s: Seq<Seq<char>>, sep: Seq<char>) -> Seq<char>
    decreases s.len(),
{
    if s.len() == 0 {
        Seq::empty()
    } else if s.len() == 1 {
        s[0]
    } else {
        join(s.drop_last(), sep) + sep + s.last()
    }
}

/// `String::push` appends the character to the end of the string.
pub assume_specification[ std::string::String::push ](s: &mut std::string::String, c: char)
    ensures
        final(s)@ == old(s)@.push(c),
;

/// `String::push_str` appends the text to the end of the string.
pub assume_specification[ std::string::String::push_str ](s: &mut std::string::String, t: &str)
    ensures
        final(s)@ == old(s)@ + t@,
;

pub proof fn lemma_text_lt_irreflexive(a: Seq<char>)
    ensures
        !text_lt(a, a),
    decreases a.len(),
{
    if a.len() > 0 {
        lemma_text_lt_irreflexive(a.drop_first());
    }
}

pub proof fn lemma_text_lt_transitive(a: Seq<char>, b: Seq<char>, c: Seq<char>)
    requires
        text_lt(a, b),
        text_lt(b, c),
    ensures
        text_lt(a, c),
    decreases a.len(),
{
    if a.len() > 0 && a[0] == b[0] && b[0] == c[0] {
        lemma_text_lt_transitive(a.drop_first(), b.drop_first(), c.drop_first());
    }
}

/// Two different texts are ordered one way or the other.
pub proof fn lemma_text_lt_total(a: Seq<char>, b: Seq<char>)
    ensures
        a == b || text_lt(a, b) || text_lt(b, a),
    decreases a.len(),
{
    if a.len() > 0 && b.len() > 0 {
        if a[0] == b[0] {
            lemma_text_lt_total(a.drop_first(), b.drop_first());
            if a.drop_first() == b.drop_first() {
                assert(a =~= seq![a[0]] + a.drop_first());
                assert(b =~= seq![b[0]] + b.drop_first());
            }
        }
    } else if a.len() == 0 && b.len() == 0 {
        assert(a =~= b);
    }
}

pub proof fn lemma_text_lt_asymmetric(a: Seq<char>, b: Seq<char>)
    requires
        text_lt(a, b),
    ensures
        !text_lt(b, a),
        a != b,
{
    lemma_text_lt_irreflexive(a);
    if text_lt(b, a) {
        lemma_text_lt_transitive(a, b, a);
    }
}

/// What lies between two texts splits them.
pub proof fn lemma_text_lt_splits(a: Seq<char>, b: Seq<char>, c: Seq<char>)
    requires
        text_lt(a, c),
    ensures
        text_lt(a, b) || text_lt(b, c),
{
    lemma_text_lt_total(a, b);
    if text_lt(b, a) {
        lemma_text_lt_transitive(b, a, c);
    }
}

/// The characters of a string.
pub fn chars_of(s: &str) -> (r: Vec<char>)
    ensures
        r@ == s@,
{
    let mut out: Vec<char> = Vec::new();
    for c in it: s.chars()
        invariant
            out@ == it.seq().take(it.index()),
            it.seq() == s@,
    {
        out.push(c);
    }
    assert(s@.take(s@.len() as int) =~= s@);
    out
}

/// The string of a run of characters.
pub fn string_of(v: &Vec<char>, from: usize, to: usize) -> (r: String)
    requires
        from <= to <= v@.len(),
    ensures
        r@ == v@.subrange(from as int, to as int),
{
    let mut out = String::new();
    let mut i: usize = from;
    while i < to
        invariant
            from <= i <= to <= v@.len(),
            out@ == v@.subrange(from as int, i as int),
        decreases to - i,
    {
        out.push(v[i]);
        i = i + 1;
        assert(v@.subrange(from as int, i as int) =~= v@.subrange(from as int, i - 1).push(
            v@[i - 1],
        ));
    }
    out
}

/// Whether two strings hold the same text.
pub fn str_eq(a: &str, b: &str) -> (r: bool)
    ensures
        r == (a@ == b@),
{
    let x = chars_of(a);
    let y = chars_of(b);
    if x.len() != y.len() {
        return false;
    }
    let mut i: usize = 0;
    while i < x.len()
        invariant
            i <= x@.len(),
            x@.len() == y@.len(),
            x@ == a@,
            y@ == b@,
            x@.take(i as int) == y@.take(i as int),
        decreases x@.len() - i,
    {
        if x[i] != y[i] {
            return false;
        }
        assert(x@.take(i + 1) =~= x@.take(i as int).push(x@[i as int]));
        assert(y@.take(i + 1) =~= y@.take(i as int).push(y@[i as int]));
        i = i + 1;
    }
    assert(x@.take(i as int) =~= x@);
    assert(y@.take(i as int) =~= y@);
    true
}

/// Whether `a` stands before `b` in the order of strings.
pub fn str_lt(a: &str, b: &str) -> (r: bool)
    ensures
        r == text_lt(a@, b@),
{
    let x = chars_of(a);
    let y = chars_of(b);
    let mut i: usize = 0;
    assert(x@.skip(0) =~= x@);
    assert(y@.skip(0) =~= y@);
    while i < x.len() && i < y.len()
        invariant
            i <= x@.len(),
            i <= y@.len(),
            x@ == a@,
            y@ == b@,
            text_lt(a@, b@) == text_lt(x@.skip(i as int), y@.skip(i as int)),
        decreases x@.len() - i,
    {
        if x[i] != y[i] {
            return x[i] < y[i];
        }
        assert(x@.skip(i as int).drop_first() =~= x@.skip(i + 1));
        assert(y@.skip(i as int).drop_first() =~= y@.skip(i + 1));
        i = i + 1;
    }
    i < y.len()
}

/// Writes a number in decimal.
pub fn decimal_text(n: u64) -> (r: String)
    ensures
        r@ == decimal(n as nat),
    decreases n,
{
    if n < 10 {
        let mut out = String::new();
        out.push((48u8 + n as u8) as char);
        out
    } else {
        let mut out = decimal_text(n / 10);
        out.push((48u8 + (n % 10) as u8) as char);
        out
    }
}

/// An owned copy of a string.
pub fn owned(s: &str) -> (r: String)
    ensures
        r@ == s@,
{
    let mut out = String::new();
    out.push_str(s);
    assert(out@ =~= s@);
    out
}

/// Puts the strings together with the separator between them.
pub fn join_text(v: &Vec<String>, sep: &str) -> (r: String)
    ensures
        r@ == join(strs(v@), sep@),
{
    let ghost s = strs(v@);
    let mut out = String::new();
    let mut i: usize = 0;
    assert(s.take(0) =~= Seq::empty());
    while i < v.len()
        invariant
            i <= v@.len(),
            s == strs(v@),
            out@ == join(s.take(i as int), sep@),
        decreases v@.len() - i,
    {
        let ghost before = out@;
        if i > 0 {
            out.push_str(sep);
        }
        out.push_str(v[i].as_str());
        proof {
            let t = s.take(i + 1);
            assert(t.drop_last() =~= s.take(i as int));
            assert(t.last() == v@[i as int]@);
            if i == 0 {
                assert(out@ =~= t[0]);
            } else {
                assert(out@ =~= before + sep@ + t.last());
            }
        }
        i = i + 1;
    }
    assert(s.take(i as int) =~= s);
    out
}

/// A copy of a list of strings.
pub fn clone_strs(v: &Vec<String>) -> (r: Vec<String>)
    ensures
        strs(r@) == strs(v@),
{
    let mut out: Vec<String> = Vec::new();
    let mut i: usize = 0;
    while i < v.len()
        invariant
            i <= v@.len(),
            out@.len() == i,
            forall|j: int| 0 <= j < i ==> (#[trigger] out@[j])@ == v@[j]@,
        decreases v@.len() - i,
    {
        out.push(v[i].clone());
        i = i + 1;
    }
    assert(strs(out@) =~= strs(v@));
    out
}

/// A character with the Unicode property White_Space.
pub open spec fn is_white(c: char) -> bool {
    ||| '\u{9}' <= c && c <= '\u{d}'
    ||| c == ' '
    ||| c == '\u{85}'
    ||| c == '\u{a0}'
    ||| c == '\u{1680}'
    ||| '\u{2000}' <= c && c <= '\u{200a}'
    ||| c == '\u{2028}'
    ||| c == '\u{2029}'
    ||| c == '\u{202f}'
    ||| c == '\u{205f}'
    ||| c == '\u{3000}'
}

/// A space, tab, line feed, form feed or carriage return.
pub open spec fn is_ascii_white(c: char) -> bool {
    c == ' ' || c == '\t' || c == '\n' || c == '\u{c}' || c == '\r'
}

/// Which characters are taken off the end of a text.
#[derive(Clone, Copy)]
pub enum Strip {
    White,
    AsciiWhite,
    Only(char),
}

impl Strip {
    pub open spec fn takes(self, c: char) -> bool {
        match self {
            Strip::White => is_white(c),
            Strip::AsciiWhite => is_ascii_white(c),
            Strip::Only(x) => c == x,
        }
    }

    fn has(self, c: char) -> (r: bool)
        ensures
            r == self.takes(c),
    {
        match self {
            Strip::White => (c >= '\u{9}' && c <= '\u{d}') || c == ' ' || c == '\u{85}' || c
                == '\u{a0}' || c == '\u{1680}' || (c >= '\u{2000}' && c <= '\u{200a}') || c
                == '\u{2028}' || c == '\u{2029}' || c == '\u{202f}' || c == '\u{205f}' || c
                == '\u{3000}',
            Strip::AsciiWhite => c == ' ' || c == '\t' || c == '\n' || c == '\u{c}' || c == '\r',
            Strip::Only(x) => c == x,
        }
    }
}

/// The text without the characters at its start that are to be stripped.
pub open spec fn strip_start(s: Seq<char>, f: Strip) -> Seq<char>
    decreases s.len(),
{
    if s.len() > 0 && f.takes(s[0]) {
        strip_start(s.drop_first(), f)
    } else {
        s
    }
}

/// The text without the characters at its end that are to be stripped.
pub open spec fn strip_end(s: Seq<char>, f: Strip) -> Seq<char>
    decreases s.len(),
{
    if s.len() > 0 && f.takes(s.last()) {
        strip_end(s.drop_last(), f)
    } else {
        s
    }
}

/// The text without the whitespace around it.
pub open spec fn trim(s: Seq<char>) -> Seq<char> {
    strip_end(strip_start(s, Strip::White), Strip::White)
}

/// The pieces between the separators.
pub open spec fn split(s: Seq<char>, sep: char) -> Seq<Seq<char>>
    decreases s.len(),
{
    match s.index_of_first(sep) {
        None => seq![s],
        Some(i) => if 0 <= i < s.len() {
            seq![s.take(i)] + split(s.skip(i + 1), sep)
        } else {
            seq![s]
        },
    }
}

/// What stands before and after the first separator.
pub open spec fn split_once(s: Seq<char>, sep: char) -> Option<(Seq<char>, Seq<char>)> {
    match s.index_of_first(sep) {
        None => None,
        Some(i) => Some((s.take(i), s.skip(i + 1))),
    }
}

/// The number of leading characters before the first to be stripped.
pub open spec fn run_len(s: Seq<char>, f: Strip) -> nat
    decreases s.len(),
{
    if s.len() == 0 || f.takes(s[0]) {
        0
    } else {
        1 + run_len(s.drop_first(), f)
    }
}

/// The runs of characters between the characters of the given sort.
pub open spec fn words(s: Seq<char>, f: Strip) -> Seq<Seq<char>>
    decreases s.len(),
{
    let t = strip_start(s, f);
    if t.len() == 0 {
        Seq::empty()
    } else {
        let n = run_len(t, f) as int;
        proof {
            lemma_strip_start_shorter(s, f);
            lemma_run_len(t, f);
        }
        seq![t.take(n)] + words(t.skip(n), f)
    }
}

/// The lowercase form of an ASCII letter; any other character as it is.
pub open spec fn lower_char(c: char) -> char {
    if 'A' <= c && c <= 'Z' {
        (c as u32 + 32) as char
    } else {
        c
    }
}

/// The text with ASCII letters in lowercase.
pub open spec fn lower(s: Seq<char>) -> Seq<char> {
    s.map_values(|c: char| lower_char(c))
}

pub proof fn lemma_strip_start_shorter(s: Seq<char>, f: Strip)
    ensures
        strip_start(s, f).len() <= s.len(),
        strip_start(s, f).len() > 0 ==> !f.takes(strip_start(s, f)[0]),
    decreases s.len(),
{
    if s.len() > 0 && f.takes(s[0]) {
        lemma_strip_start_shorter(s.drop_first(), f);
    }
}

pub proof fn lemma_run_len(s: Seq<char>, f: Strip)
    ensures
        run_len(s, f) <= s.len(),
        s.len() > 0 && !f.takes(s[0]) ==> run_len(s, f) > 0,
    decreases s.len(),
{
    if s.len() > 0 && !f.takes(s[0]) {
        lemma_run_len(s.drop_first(), f);
    }
}

/// Takes characters off the start of a text.
pub fn strip_start_text(s: &str, f: Strip) -> (r: String)
    ensures
        r@ == strip_start(s@, f),
{
    let c = chars_of(s);
    let mut i: usize = 0;
    assert(c@.skip(0) =~= c@);
    while i < c.len() && f.has(c[i])
        invariant
            i <= c@.len(),
            c@ == s@,
            strip_start(c@, f) == strip_start(c@.skip(i as int), f),
        decreases c@.len() - i,
    {
        assert(c@.skip(i as int).drop_first() =~= c@.skip(i + 1));
        i = i + 1;
    }
    assert(c@.skip(i as int) =~= c@.subrange(i as int, c@.len() as int));
    string_of(&c, i, c.len())
}

/// Takes characters off the end of a text.
pub fn strip_end_text(s: &str, f: Strip) -> (r: String)
    ensures
        r@ == strip_end(s@, f),
{
    let c = chars_of(s);
    let mut n: usize = c.len();
    assert(c@.take(n as int) =~= c@);
    while n > 0 && f.has(c[n - 1])
        invariant
            n <= c@.len(),
            c@ == s@,
            strip_end(c@, f) == strip_end(c@.take(n as int), f),
        decreases n,
    {
        assert(c@.take(n as int).drop_last() =~= c@.take(n - 1));
        n = n - 1;
    }
    assert(c@.take(n as int) =~= c@.subrange(0, n as int));
    string_of(&c, 0, n)
}

/// Takes the whitespace around a text off.
pub fn trim_text(s: &str) -> (r: String)
    ensures
        r@ == trim(s@),
{
    let t = strip_start_text(s, Strip::White);
    strip_end_text(t.as_str(), Strip::White)
}

/// The position of the first occurrence of a character at or after a
/// position.
pub fn find_char(c: &Vec<char>, from: usize, x: char) -> (r: Option<usize>)
    requires
        from <= c@.len(),
    ensures
        match r {
            Some(i) => from <= i < c@.len() && c@[i as int] == x && forall|j: int|
                from <= j < i ==> c@[j] != x,
            None => forall|j: int| from <= j < c@.len() ==> c@[j] != x,
        },
{
    let mut i: usize = from;
    while i < c.len()
        invariant
            from <= i <= c@.len(),
            forall|j: int| from <= j < i ==> c@[j] != x,
        decreases c@.len() - i,
    {
        if c[i] == x {
            return Some(i);
        }
        i = i + 1;
    }
    None
}

proof fn lemma_first_index(s: Seq<char>, x: char, i: int)
    requires
        0 <= i < s.len(),
        s[i] == x,
        forall|j: int| 0 <= j < i ==> s[j] != x,
    ensures
        s.index_of_first(x) == Some(i),
{
    s.index_of_first_ensures(x);
    assert(s.contains(x));
}

proof fn lemma_no_index(s: Seq<char>, x: char)
    requires
        forall|j: int| 0 <= j < s.len() ==> s[j] != x,
    ensures
        s.index_of_first(x) is None,
{
    s.index_of_first_ensures(x);
}

/// Splits a text at every separator.
pub fn split_text(s: &str, sep: char) -> (r: Vec<String>)
    ensures
        strs(r@) == split(s@, sep),
{
    let c = chars_of(s);
    let mut out: Vec<String> = Vec::new();
    let mut from: usize = 0;
    assert(c@.skip(0) =~= c@);
    assert(strs(out@) + split(c@.skip(0), sep) =~= split(c@, sep));
    loop
        invariant
            from <= c@.len(),
            c@ == s@,
            strs(out@) + split(c@.skip(from as int), sep) == split(c@, sep),
        decreases c@.len() - from,
    {
        let ghost rest = c@.skip(from as int);
        let ghost before = out@;
        let n: usize = c.len();
        match find_char(&c, from, sep) {
            Some(i) => {
                let piece = string_of(&c, from, i);
                proof {
                    assert forall|j: int| 0 <= j < i - from implies rest[j] != sep by {
                        assert(rest[j] == c@[from + j]);
                    }
                    lemma_first_index(rest, sep, i - from);
                    assert(rest.take(i - from) =~= piece@);
                    assert(rest.skip(i - from + 1) =~= c@.skip(i + 1));
                }
                out.push(piece);
                from = i + 1;
                assert(strs(out@) =~= strs(before).push(piece@));
                assert(strs(out@) + split(c@.skip(from as int), sep) =~= strs(before) + split(
                    rest,
                    sep,
                ));
            },
            None => {
                let piece = string_of(&c, from, c.len());
                proof {
                    assert forall|j: int| 0 <= j < rest.len() implies rest[j] != sep by {
                        assert(rest[j] == c@[from + j]);
                    }
                    lemma_no_index(rest, sep);
                    assert(rest =~= piece@);
                }
                out.push(piece);
                assert(strs(out@) =~= strs(before).push(piece@));
                assert(strs(out@) =~= split(c@, sep));
                return out;
            },
        }
    }
}

/// Splits a text at the first separator.
pub fn split_once_text(s: &str, sep: char) -> (r: Option<(String, String)>)
    ensures
        match r {
            Some((a, b)) => split_once(s@, sep) == Some((a@, b@)),
            None => split_once(s@, sep) is None,
        },
{
    let c = chars_of(s);
    let n: usize = c.len();
    match find_char(&c, 0, sep) {
        Some(i) => {
            let a = string_of(&c, 0, i);
            let b = string_of(&c, i + 1, n);
            proof {
                lemma_first_index(c@, sep, i as int);
                assert(a@ =~= c@.take(i as int));
                assert(b@ =~= c@.skip(i + 1));
            }
            Some((a, b))
        },
        None => {
            proof {
                lemma_no_index(c@, sep);
            }
            None
        },
    }
}

/// The words of a text.
pub fn words_text(s: &str, f: Strip) -> (r: Vec<String>)
    ensures
        strs(r@) == words(s@, f),
{
    let c = chars_of(s);
    let mut out: Vec<String> = Vec::new();
    let mut i: usize = 0;
    assert(c@.skip(0) =~= c@);
    assert(strs(out@) + words(c@.skip(0), f) =~= words(c@, f));
    loop
        invariant
            i <= c@.len(),
            c@ == s@,
            strs(out@) + words(c@.skip(i as int), f) == words(c@, f),
        decreases c@.len() - i,
    {
        let ghost rest = c@.skip(i as int);
        let ghost at = i as int;
        while i < c.len() && f.has(c[i])
            invariant
                at <= i <= c@.len(),
                0 <= at,
                strip_start(c@.skip(at), f) == strip_start(c@.skip(i as int), f),
            decreases c@.len() - i,
        {
            assert(c@.skip(i as int).drop_first() =~= c@.skip(i + 1));
            i = i + 1;
        }
        let ghost t = strip_start(rest, f);
        assert(t == c@.skip(i as int));
        if i == c.len() {
            assert(t.len() == 0);
            assert(strs(out@) =~= words(c@, f));
            return out;
        }
        let from: usize = i;
        while i < c.len() && !f.has(c[i])
            invariant
                from <= i <= c@.len(),
                run_len(c@.skip(from as int), f) == (i - from) + run_len(c@.skip(i as int), f),
            decreases c@.len() - i,
        {
            assert(c@.skip(i as int).drop_first() =~= c@.skip(i + 1));
            i = i + 1;
        }
        let ghost before = out@;
        let piece = string_of(&c, from, i);
        proof {
            lemma_run_len(t, f);
            assert(run_len(c@.skip(i as int), f) == 0);
            assert(run_len(t, f) == i - from);
            assert(t.take(i - from) =~= piece@);
            assert(t.skip(i - from) =~= c@.skip(i as int));
            assert(words(rest, f) == seq![piece@] + words(c@.skip(i as int), f));
        }
        out.push(piece);
        assert(strs(out@) =~= strs(before).push(piece@));
        assert(strs(out@) + words(c@.skip(i as int), f) =~= strs(before) + words(rest, f));
    }
}

/// Writes ASCII letters in lowercase.
pub fn lower_text(s: &str) -> (r: String)
    ensures
        r@ == lower(s@),
{
    let c = chars_of(s);
    let mut out = String::new();
    let mut i: usize = 0;
    while i < c.len()
        invariant
            i <= c@.len(),
            c@ == s@,
            out@ == lower(s@).take(i as int),
        decreases c@.len() - i,
    {
        let x = c[i];
        if x >= 'A' && x <= 'Z' {
            let y = (x as u8 + 32) as char;
            assert(y == lower_char(x));
            out.push(y);
        } else {
            out.push(x);
        }
        i = i + 1;
        assert(out@ =~= lower(s@).take(i as int));
    }
    assert(out@ =~= lower(s@));
    out
}

/// Whether two texts agree up to the case of ASCII letters.
pub fn eq_ignore_case(a: &str, b: &str) -> (r: bool)
    ensures
        r == (lower(a@) == lower(b@)),
{
    let x = lower_text(a);
    let y = lower_text(b);
    str_eq(x.as_str(), y.as_str())
}

/// Whether a text starts with another.
pub fn starts_with_text(s: &str, prefix: &str) -> (r: bool)
    ensures
        r == prefix@.is_prefix_of(s@),
{
    let c = chars_of(s);
    let p = chars_of(prefix);
    matches_at(&c, &p, 0)
}

fn matches_at(hay: &Vec<char>, needle: &Vec<char>, at: usize) -> (r: bool)
    requires
        at <= hay@.len(),
    ensures
        r == occurs_at(needle@, hay@, at as int),
        r == needle@.is_prefix_of(hay@.skip(at as int)),
{
    let ghost rest = hay@.skip(at as int);
    let n: usize = hay.len();
    if n - at < needle.len() {
        return false;
    }
    let mut i: usize = 0;
    while i < needle.len()
        invariant
            i <= needle@.len(),
            at + needle@.len() <= hay@.len(),
            hay@.len() == n,
            rest == hay@.skip(at as int),
            forall|j: int| 0 <= j < i ==> hay@[at + j] == needle@[j],
        decreases needle@.len() - i,
    {
        if hay[at + i] != needle[i] {
            proof {
                let w = hay@.subrange(at as int, at + needle@.len());
                assert(w[i as int] != needle@[i as int]);
                assert(rest.take(needle@.len() as int)[i as int] != needle@[i as int]);
                assert(rest[i as int] != needle@[i as int]);
            }
            return false;
        }
        i = i + 1;
    }
    assert(hay@.subrange(at as int, at + needle@.len()) =~= needle@);
    assert forall|j: int| 0 <= j < needle@.len() implies rest[j] == needle@[j] by {
        assert(hay@[at + j] == needle@[j]);
    }
    assert(rest.take(needle@.len() as int) =~= needle@);
    true
}

/// Whether a text occurs in another.
pub fn contains_text(hay: &str, needle: &str) -> (r: bool)
    ensures
        r == occurs_in(needle@, hay@),
{
    let h = chars_of(hay);
    let n = chars_of(needle);
    let mut i: usize = 0;
    loop
        invariant
            i <= h@.len(),
            h@ == hay@,
            n@ == needle@,
            forall|j: int| 0 <= j < i ==> !occurs_at(n@, h@, j),
        decreases h@.len() - i,
    {
        if matches_at(&h, &n, i) {
            assert(occurs_at(n@, h@, i as int));
            return true;
        }
        if i == h.len() {
            assert forall|j: int| !occurs_at(n@, h@, j) by {
                if 0 <= j < i {
                    assert(!occurs_at(n@, h@, j));
                }
            }
            return false;
        }
        i = i + 1;
    }
}

/// The number a run of decimal digits stands for.
pub open spec fn digits_value(s: Seq<char>) -> nat
    decreases s.len(),
{
    if s.len() == 0 {
        0
    } else {
        digits_value(s.drop_last()) * 10 + (s.last() as u32 - '0' as u32) as nat
    }
}

/// At least one character, all decimal digits.
pub open spec fn all_digits(s: Seq<char>) -> bool {
    s.len() > 0 && forall|i: int| 0 <= i < s.len() ==> '0' <= #[trigger] s[i] && s[i] <= '9'
}

/// The digits of a number that may have a plus sign in front.
pub open spec fn unsigned_part(s: Seq<char>) -> Seq<char> {
    if s.len() > 0 && s[0] == '+' {
        s.drop_first()
    } else {
        s
    }
}

/// The number a text stands for: an optional plus sign and decimal digits,
/// with a value that fits.
pub open spec fn number_value(s: Seq<char>) -> Option<u64> {
    let d = unsigned_part(s);
    if all_digits(d) && digits_value(d) <= u64::MAX {
        Some(digits_value(d) as u64)
    } else {
        None
    }
}

/// Reads a number.
pub fn parse_number(s: &str) -> (r: Option<u64>)
    ensures
        r == number_value(s@),
{
    let c = chars_of(s);
    let from: usize = if c.len() > 0 && c[0] == '+' {
        1
    } else {
        0
    };
    let ghost d = c@.skip(from as int);
    assert(d =~= unsigned_part(s@));
    if from == c.len() {
        return None;
    }
    let mut value: u64 = 0;
    let mut overflow = false;
    let mut i: usize = from;
    assert(d.take(0) =~= Seq::empty());
    while i < c.len()
        invariant
            from <= i <= c@.len(),
            d == c@.skip(from as int),
            d == unsigned_part(s@),
            forall|j: int| 0 <= j < i - from ==> '0' <= #[trigger] d[j] && d[j] <= '9',
            !overflow ==> value == digits_value(d.take(i - from)),
            overflow ==> digits_value(d.take(i - from)) > u64::MAX,
        decreases c@.len() - i,
    {
        let x = c[i];
        assert(d[i - from] == x);
        if x < '0' || x > '9' {
            assert(!all_digits(d));
            return None;
        }
        let digit: u64 = (x as u8 - 48u8) as u64;
        proof {
            let k = i - from;
            assert(d.take(k + 1).drop_last() =~= d.take(k));
            assert(d.take(k + 1).last() == x);
            assert(digit == (x as u32 - '0' as u32) as nat);
        }
        if !overflow {
            match value.checked_mul(10) {
                Some(m) => match m.checked_add(digit) {
                    Some(v) => {
                        value = v;
                    },
                    None => {
                        overflow = true;
                    },
                },
                None => {
                    overflow = true;
                },
            }
        }
        i = i + 1;
    }
    assert(d.take(i - from) =~= d);
    if overflow {
        None
    } else {
        Some(value)
    }
}

/// A text without the separator is one part.
pub proof fn lemma_split_line(s: Seq<char>, sep: char)
    requires
        !s.contains(sep),
    ensures
        split(s, sep) == seq![s],
{
    s.index_of_first_ensures(sep);
}

/// The parts of two texts with a separator between them are the parts of the
/// one and those of the other.
pub proof fn lemma_split_parts(a: Seq<char>, b: Seq<char>, sep: char)
    ensures
        split(a + seq![sep] + b, sep) == split(a, sep) + split(b, sep),
    decreases a.len(),
{
    let whole = a + seq![sep] + b;
    a.index_of_first_ensures(sep);
    whole.index_of_first_ensures(sep);
    if a.contains(sep) {
        let i = a.index_of_first(sep)->0;
        assert(whole[i] == a[i]);
        assert(whole.contains(whole[i]));
        let w = whole.index_of_first(sep)->0;
        if w < i {
            assert(a[w] == whole[w]);
        }
        if i < w {
            assert(whole[i] == sep);
        }
        assert(w == i);
        assert(whole.take(i) =~= a.take(i));
        assert(whole.skip(i + 1) =~= a.skip(i + 1) + seq![sep] + b);
        lemma_split_parts(a.skip(i + 1), b, sep);
        assert(split(whole, sep) =~= split(a, sep) + split(b, sep));
    } else {
        let n = a.len() as int;
        assert(whole[n] == sep);
        assert(whole.contains(whole[n]));
        let w = whole.index_of_first(sep)->0;
        if w < n {
            assert(a[w] == whole[w]);
            assert(a.contains(a[w]));
        }
        if n < w {
            assert(whole[n] == sep);
        }
        assert(w == n);
        assert(whole.take(n) =~= a);
        assert(whole.skip(n + 1) =~= b);
        assert(split(whole, sep) =~= split(a, sep) + split(b, sep));
    }
}

/// Putting a first part before others.
proof fn lemma_join_front(first: Seq<char>, rest: Seq<Seq<char>>, sep: Seq<char>)
    requires
        rest.len() > 0,
    ensures
        join(seq![first] + rest, sep) == first + sep + join(rest, sep),
    decreases rest.len(),
{
    let all = seq![first] + rest;
    assert(all.last() == rest.last());
    if rest.len() == 1 {
        assert(all.drop_last() =~= seq![first]);
        assert(join(all.drop_last(), sep) == first);
        assert(join(all, sep) =~= first + sep + join(rest, sep));
    } else {
        assert(all.drop_last() =~= seq![first] + rest.drop_last());
        lemma_join_front(first, rest.drop_last(), sep);
        assert(join(all, sep) =~= first + sep + join(rest, sep));
    }
}

/// Parts put together again are the text they were taken from.
pub proof fn lemma_join_split(s: Seq<char>, sep: char, joiner: Seq<char>)
    requires
        joiner == seq![sep],
    ensures
        join(split(s, sep), joiner) == s,
        split(s, sep).len() > 0,
    decreases s.len(),
{
    s.index_of_first_ensures(sep);
    if s.contains(sep) {
        let i = s.index_of_first(sep)->0;
        lemma_join_split(s.skip(i + 1), sep, joiner);
        lemma_join_front(s.take(i), split(s.skip(i + 1), sep), joiner);
        assert(s.take(i) + joiner + s.skip(i + 1) =~= s);
    }
}

/// A text is shown as a part of another.
#[verifier::opaque]
pub open spec fn is_shown(part: Seq<char>, whole: Seq<char>) -> bool {
    occurs_in(part, whole)
}

/// A text is shown in a longer one around it.
pub proof fn lemma_shown_between(a: Seq<char>, part: Seq<char>, b: Seq<char>)
    ensures
        is_shown(part, a + part + b),
{
    reveal(is_shown);
    let all = a + part + b;
    assert(all.subrange(a.len() as int, (a.len() + part.len()) as int) =~= part);
    assert(occurs_at(part, all, a.len() as int));
}

/// What is shown in a part is shown in the whole.
pub proof fn lemma_shown_through(part: Seq<char>, mid: Seq<char>, whole: Seq<char>)
    requires
        is_shown(part, mid),
        is_shown(mid, whole),
    ensures
        is_shown(part, whole),
{
    reveal(is_shown);
    let i = choose|i: int| #[trigger] occurs_at(part, mid, i);
    let j = choose|j: int| #[trigger] occurs_at(mid, whole, j);
    assert(whole.subrange(j + i, j + i + part.len()) =~= whole.subrange(
        j,
        j + mid.len(),
    ).subrange(i, i + part.len()));
    assert(occurs_at(part, whole, j + i));
}

/// Each of the texts is shown in what they are joined to.
pub proof fn lemma_shown_joined(s: Seq<Seq<char>>, sep: Seq<char>, i: int)
    requires
        0 <= i < s.len(),
    ensures
        is_shown(s[i], join(s, sep)),
    decreases s.len(),
{
    if s.len() == 1 {
        lemma_shown_between(Seq::empty(), s[i], Seq::empty());
        assert(join(s, sep) =~= Seq::empty() + s[i] + Seq::empty());
    } else if i == s.len() - 1 {
        let a = join(s.drop_last(), sep) + sep;
        lemma_shown_between(a, s[i], Seq::empty());
        assert(join(s, sep) =~= a + s[i] + Seq::empty());
    } else {
        let front = join(s.drop_last(), sep);
        lemma_shown_joined(s.drop_last(), sep, i);
        assert(s.drop_last()[i] == s[i]);
        lemma_shown_between(Seq::empty(), front, sep + s.last());
        assert(join(s, sep) =~= Seq::empty() + front + (sep + s.last()));
        lemma_shown_through(s[i], front, join(s, sep));
    }
}

/// A text stands before every longer text that begins with it.
pub proof fn prefix_stands_first(a: Seq<char>, b: Seq<char>)
    requires
        b.len() > 0,
    ensures
        text_lt(a, a + b),
        !text_lt(a + b, a),
    decreases a.len(),
{
    if a.len() > 0 {
        prefix_stands_first(a.drop_first(), b);
        assert((a + b).drop_first() =~= a.drop_first() + b);
    }
}

/// The first character in which two texts differ decides their order.
pub proof fn first_difference_decides(
    common: Seq<char>,
    x: char,
    y: char,
    a: Seq<char>,
    b: Seq<char>,
)
    requires
        x != y,
    ensures
        text_lt(common + seq![x] + a, common + seq![y] + b) <==> x < y,
    decreases common.len(),
{
    let s = common + seq![x] + a;
    let t = common + seq![y] + b;
    if common.len() > 0 {
        let rest = common.drop_first();
        first_difference_decides(rest, x, y, a, b);
        assert(s.drop_first() =~= rest + seq![x] + a);
        assert(t.drop_first() =~= rest + seq![y] + b);
    }
}

/// What is stripped off the start is all of the sort to be stripped, and what
/// is left does not start with any of it.
pub proof fn stripping_the_start_takes_a_prefix(s: Seq<char>, f: Strip) -> (n: int)
    ensures
        0 <= n <= s.len(),
        strip_start(s, f) == s.skip(n),
        forall|i: int| 0 <= i < n ==> f.takes(#[trigger] s[i]),
        n < s.len() ==> !f.takes(s[n]),
    decreases s.len(),
{
    if s.len() > 0 && f.takes(s[0]) {
        let rest = s.drop_first();
        let n = stripping_the_start_takes_a_prefix(rest, f);
        assert(rest.skip(n) =~= s.skip(n + 1));
        assert forall|i: int| 0 <= i < n + 1 implies f.takes(#[trigger] s[i]) by {
            if i > 0 {
                assert(s[i] == rest[i - 1]);
            }
        }
        if n < rest.len() {
            assert(rest[n] == s[n + 1]);
        }
        n + 1
    } else {
        assert(s.skip(0) =~= s);
        0
    }
}

/// What is stripped off the end is all of the sort to be stripped, and what
/// is left does not end with any of it.
pub proof fn stripping_the_end_takes_a_suffix(s: Seq<char>, f: Strip) -> (n: int)
    ensures
        0 <= n <= s.len(),
        strip_end(s, f) == s.take(n),
        forall|i: int| n <= i < s.len() ==> f.takes(#[trigger] s[i]),
        n > 0 ==> !f.takes(s[n - 1]),
    decreases s.len(),
{
    if s.len() > 0 && f.takes(s.last()) {
        let rest = s.drop_last();
        let n = stripping_the_end_takes_a_suffix(rest, f);
        assert(rest.take(n) =~= s.take(n));
        assert forall|i: int| n <= i < s.len() implies f.takes(#[trigger] s[i]) by {
            if i < rest.len() {
                assert(s[i] == rest[i]);
            }
        }
        if n > 0 {
            assert(rest[n - 1] == s[n - 1]);
        }
        n
    } else {
        assert(s.take(s.len() as int) =~= s);
        s.len() as int
    }
}

/// A trimmed text is a part of the text; what is around it is whitespace, and
/// it neither starts nor ends with any.
pub proof fn trimming_takes_the_whitespace_around(s: Seq<char>) -> (at: (int, int))
    ensures
        0 <= at.0 <= at.1 <= s.len(),
        trim(s) == s.subrange(at.0, at.1),
        forall|i: int| 0 <= i < at.0 ==> is_white(#[trigger] s[i]),
        forall|i: int| at.1 <= i < s.len() ==> is_white(#[trigger] s[i]),
        trim(s).len() > 0 ==> !is_white(trim(s)[0]) && !is_white(trim(s).last()),
{
    let a = stripping_the_start_takes_a_prefix(s, Strip::White);
    let t = strip_start(s, Strip::White);
    let n = stripping_the_end_takes_a_suffix(t, Strip::White);
    assert(t.take(n) =~= s.subrange(a, a + n));
    assert forall|i: int| a + n <= i < s.len() implies is_white(#[trigger] s[i]) by {
        assert(t[i - a] == s[i]);
        assert(Strip::White.takes(t[i - a]));
    }
    assert forall|i: int| 0 <= i < a implies is_white(#[trigger] s[i]) by {
        assert(Strip::White.takes(s[i]));
    }
    if trim(s).len() > 0 {
        assert(trim(s)[0] == t[0]);
        assert(t[0] == s[a]);
        assert(trim(s).last() == t[n - 1]);
    }
    (a, a + n)
}

/// A text is split at its first separator, and not where it has none.
pub proof fn splitting_once_is_at_the_first(a: Seq<char>, b: Seq<char>, sep: char)
    requires
        !a.contains(sep),
    ensures
        split_once(a + seq![sep] + b, sep) == Some((a, b)),
        split_once(a, sep) is None,
{
    let t = a + seq![sep] + b;
    let n = a.len() as int;
    t.index_of_first_ensures(sep);
    a.index_of_first_ensures(sep);
    assert(t[n] == sep);
    assert(t.contains(sep));
    let k = t.index_of_first(sep)->0;
    assert(k == n) by {
        if k < n {
            assert(a[k] == sep);
        }
        if k > n {
            assert(t[n] != sep);
        }
    }
    assert(t.take(n) =~= a);
    assert(t.skip(n + 1) =~= b);
}

/// A word has at least one character and none of those that words are parted
/// by.
pub proof fn words_are_whole(s: Seq<char>, f: Strip)
    ensures
        forall|i: int, k: int|
            0 <= i < words(s, f).len() && 0 <= k < words(s, f)[i].len() ==> !f.takes(
                #[trigger] words(s, f)[i][k],
            ),
        forall|i: int| 0 <= i < words(s, f).len() ==> (#[trigger] words(s, f)[i]).len() > 0,
    decreases s.len(),
{
    let t = strip_start(s, f);
    lemma_strip_start_shorter(s, f);
    if t.len() > 0 {
        lemma_run_len(t, f);
        lemma_run_is_free(t, f);
        let n = run_len(t, f) as int;
        let rest = t.skip(n);
        words_are_whole(rest, f);
        let w = words(s, f);
        assert(w == seq![t.take(n)] + words(rest, f));
        assert forall|i: int, k: int| 0 <= i < w.len() && 0 <= k < w[i].len() implies !f.takes(
            #[trigger] w[i][k],
        ) by {
            if i > 0 {
                assert(w[i] == words(rest, f)[i - 1]);
                assert(!f.takes(words(rest, f)[i - 1][k]));
            } else {
                assert(w[0][k] == t[k]);
            }
        }
        assert forall|i: int| 0 <= i < w.len() implies (#[trigger] w[i]).len() > 0 by {
            if i > 0 {
                assert(w[i] == words(rest, f)[i - 1]);
            }
        }
    }
}

proof fn lemma_run_is_free(s: Seq<char>, f: Strip)
    ensures
        run_len(s, f) <= s.len(),
        forall|i: int| 0 <= i < run_len(s, f) ==> !f.takes(#[trigger] s[i]),
        run_len(s, f) < s.len() ==> f.takes(s[run_len(s, f) as int]),
    decreases s.len(),
{
    if s.len() > 0 && !f.takes(s[0]) {
        let rest = s.drop_first();
        lemma_run_is_free(rest, f);
        assert forall|i: int| 0 <= i < run_len(s, f) implies !f.takes(#[trigger] s[i]) by {
            if i > 0 {
                assert(s[i] == rest[i - 1]);
            }
        }
        if run_len(s, f) < s.len() {
            assert(s[run_len(s, f) as int] == rest[run_len(rest, f) as int]);
        }
    }
}

/// A text without a character that parts words is one word, if it is not
/// empty.
pub proof fn unparted_text_is_one_word(s: Seq<char>, f: Strip)
    requires
        s.len() > 0,
        forall|i: int| 0 <= i < s.len() ==> !f.takes(#[trigger] s[i]),
    ensures
        words(s, f) == seq![s],
{
    let t = strip_start(s, f);
    assert(t == s);
    lemma_run_is_free(s, f);
    lemma_run_len(s, f);
    let n = run_len(s, f) as int;
    assert(n == s.len());
    assert(s.take(n) =~= s);
    assert(s.skip(n) =~= Seq::<char>::empty());
    let e = Seq::<char>::empty();
    assert(strip_start(e, f) =~= e);
    assert(words(e, f) =~= Seq::empty());
    assert(words(s, f) =~= seq![s]);
}

/// Lowercase keeps every character but the capital letters of ASCII, of which
/// none is left, and it keeps the length.
pub proof fn lowercase_has_no_capitals(s: Seq<char>, i: int)
    requires
        0 <= i < s.len(),
    ensures
        lower(s).len() == s.len(),
        !('A' <= lower(s)[i] && lower(s)[i] <= 'Z'),
        !('A' <= s[i] && s[i] <= 'Z') ==> lower(s)[i] == s[i],
        'A' <= s[i] && s[i] <= 'Z' ==> lower(s)[i] as int - 'a' as int == s[i] as int
            - 'A' as int,
{
}

/// A number that is written down is read back, with or without a plus sign,
/// so different numbers are written differently.
pub proof fn numbers_are_read_back(n: u64)
    ensures
        number_value(decimal(n as nat)) == Some(n),
        number_value(seq!['+'] + decimal(n as nat)) == Some(n),
{
    let d = decimal(n as nat);
    lemma_decimal_digits(n as nat);
    assert(d[0] != '+');
    assert((seq!['+'] + d).drop_first() =~= d);
}

proof fn lemma_decimal_digits(n: nat)
    ensures
        all_digits(decimal(n)),
        digits_value(decimal(n)) == n,
    decreases n,
{
    let d = decimal(n);
    if n < 10 {
        assert(d.drop_last() =~= Seq::<char>::empty());
        assert(digits_value(Seq::<char>::empty()) == 0);
        assert(d.last() == digit_char(n));
    } else {
        let h = decimal(n / 10);
        lemma_decimal_digits(n / 10);
        assert(d.drop_last() =~= h);
        assert(d.last() == digit_char(n % 10));
        assert forall|i: int| 0 <= i < d.len() implies '0' <= #[trigger] d[i] && d[i] <= '9' by {
            if i < h.len() {
                assert(d[i] == h[i]);
            }
        }
    }
}

/// A text that holds anything but digits after an optional plus sign is no
/// number.
pub proof fn other_characters_make_no_number(s: Seq<char>, i: int)
    requires
        0 <= i < s.len(),
        !('0' <= s[i] && s[i] <= '9'),
        i > 0 || s[0] != '+',
    ensures
        number_value(s) is None,
        number_value(Seq::empty()) is None,
{
    let d = unsigned_part(s);
    if s[0] == '+' {
        assert(d[i - 1] == s[i]);
    } else {
        assert(d[i] == s[i]);
    }
}

} // verus!
