//! The layout of resource files: names, documents and listings. Reading and
//! writing the files happens elsewhere.

pub mod content_block_io;
pub mod email_template_io;
pub mod frontmatter;

use crate::error::Error;
use crate::order::{stable_sort, stable_sort_of, views, Named, Ranked};
use crate::text::{
    chars_of, decimal, decimal_text, find_char, is_shown, lemma_shown_between, owned, str_eq,
    string_of,
};
use vstd::prelude::*;

verus! {

/// A name that can be used as the name of a file or directory: it stays
/// inside the directory it is put in.
pub open spec fn is_safe_name(name: Seq<char>) -> bool {
    &&& name.len() > 0
    &&& name != "."@
    &&& name != ".."@
    &&& !name.contains('/')
    &&& !name.contains('\\')
    &&& !name.contains('\0')
}

/// What is said of a name that is not safe.
pub open spec fn unsafe_name(kind_label: Seq<char>, name: Seq<char>) -> Seq<char> {
    kind_label + " name '"@ + name + "' contains invalid characters"@
}

fn holds_char(s: &str, x: char) -> (r: bool)
    ensures
        r == s@.contains(x),
{
    let c = chars_of(s);
    find_char(&c, 0, x).is_some()
}

/// Refuses names that would leave their directory.
pub fn validate_resource_name(kind_label: &str, name: &str) -> (r: Result<(), Error>)
    ensures
        match r {
            Ok(_) => is_safe_name(name@),
            Err(Error::InvalidFormat { path, message }) => !is_safe_name(name@) && path@ == name@
                && message@ == unsafe_name(kind_label@, name@),
            Err(_) => false,
        },
{
    if name.is_empty() || str_eq(name, ".") || str_eq(name, "..") || holds_char(name, '/')
        || holds_char(name, '\\') || holds_char(name, '\0') {
        let mut message = owned(kind_label);
        message.push_str(" name '");
        message.push_str(name);
        message.push_str("' contains invalid characters");
        return Err(Error::InvalidFormat { path: owned(name), message });
    }
    Ok(())
}

/// A file to be written, below the root of its kind.
#[derive(Debug, PartialEq, Eq)]
pub struct FileWrite {
    /// The directory below the root, if not the root itself.
    pub directory: Option<String>,
    pub file_name: String,
    pub contents: String,
}

/// Splits a file name at its last dot. A name that has none, or none but at
/// its start, has no extension.
pub open spec fn stem_and_extension(file_name: Seq<char>) -> (Seq<char>, Option<Seq<char>>) {
    match file_name.index_of_last('.') {
        Some(i) => if i > 0 {
            (file_name.take(i), Some(file_name.skip(i + 1)))
        } else {
            (file_name, None)
        },
        None => (file_name, None),
    }
}

/// Splits a file name at its last dot.
pub fn split_file_name(file_name: &str) -> (r: (String, Option<String>))
    ensures
        (r.0@, crate::text::opt_text(r.1)) == stem_and_extension(file_name@),
{
    let c = chars_of(file_name);
    let n: usize = c.len();
    let mut i: usize = n;
    while i > 0
        invariant
            i <= n,
            n == c@.len(),
            c@ == file_name@,
            forall|j: int| i <= j < n ==> c@[j] != '.',
        decreases i,
    {
        if c[i - 1] == '.' {
            proof {
                file_name@.index_of_last_ensures('.');
                assert(file_name@.contains(file_name@[i - 1]));
            }
            if i == 1 {
                return (owned(file_name), None);
            }
            let stem = string_of(&c, 0, i - 1);
            let extension = string_of(&c, i, n);
            assert(stem@ =~= file_name@.take(i - 1));
            assert(extension@ =~= file_name@.skip(i as int));
            return (stem, Some(extension));
        }
        i = i - 1;
    }
    proof {
        file_name@.index_of_last_ensures('.');
    }
    (owned(file_name), None)
}

/// The name of the temporary file that is written in place of a file before
/// it is moved there.
pub fn temp_file_name(file_name: &str, process_id: u32) -> (r: String)
    ensures
        r@ == file_name@ + "."@ + decimal(process_id as nat) + ".tmp"@,
        r@ != file_name@,
{
    let mut out = owned(file_name);
    out.push_str(".");
    out.push_str(decimal_text(process_id as u64).as_str());
    out.push_str(".tmp");
    proof {
        reveal_strlit(".tmp");
    }
    out
}

/// What was found where the root of a kind should be.
#[derive(Debug)]
pub enum RootListing<E> {
    /// Nothing. A fresh project has no resources yet.
    Missing,
    /// Something other than a directory.
    NotADirectory,
    /// It could not be listed.
    Unreadable(String),
    Entries(Vec<E>),
}

/// What is said of a root that is no directory.
pub open spec fn no_directory(label: Seq<char>) -> Seq<char> {
    "expected a directory for the "@ + label + " root"@
}

/// The entries of the root of a kind; none where there is no such root.
pub fn try_read_resource_dir<E>(root: &str, label: &str, listing: RootListing<E>) -> (r: Result<
    Vec<E>,
    Error,
>)
    ensures
        match listing {
            RootListing::Missing => r matches Ok(v) && v@.len() == 0,
            RootListing::NotADirectory => r matches Err(Error::InvalidFormat { path, message })
                && path@ == root@ && message@ == no_directory(label@),
            RootListing::Unreadable(m) => r == Err::<Vec<E>, Error>(Error::Io(m)),
            RootListing::Entries(v) => r == Ok::<Vec<E>, Error>(v),
        },
{
    match listing {
        RootListing::Missing => Ok(Vec::new()),
        RootListing::NotADirectory => {
            let mut message = owned("expected a directory for the ");
            message.push_str(label);
            message.push_str(" root");
            Err(Error::InvalidFormat { path: owned(root), message })
        },
        RootListing::Unreadable(m) => Err(Error::Io(m)),
        RootListing::Entries(v) => Ok(v),
    }
}

/// A resource that was read, with the name its file or directory gives it.
#[derive(Debug)]
pub struct Found<T> {
    /// Where it was read from.
    pub path: String,
    /// The name according to the file or directory.
    pub expected_name: String,
    pub value: Result<T, Error>,
}

/// What is said of a resource whose name is not that of its place.
pub open spec fn misnamed(
    label: Seq<char>,
    place: Seq<char>,
    name: Seq<char>,
    expected: Seq<char>,
) -> Seq<char> {
    label + " name '"@ + name + "' does not match its "@ + place + " '"@ + expected + "'"@
}

/// The first thing that is wrong with what was read, if anything is.
pub open spec fn first_bad<T: Named>(found: Seq<Found<T>>) -> Option<int>
    decreases found.len(),
{
    if found.len() == 0 {
        None
    } else {
        match first_bad(found.drop_last()) {
            Some(i) => Some(i),
            None => if found.last().value is Err || T::name_of(found.last().value->Ok_0@)
                != found.last().expected_name@ {
                Some(found.len() - 1)
            } else {
                None
            },
        }
    }
}

/// What was read.
pub open spec fn read_values<T: Named>(found: Seq<Found<T>>) -> Seq<T::V> {
    found.map_values(|f: Found<T>| f.value->Ok_0@)
}

/// Where everything was read and is named as its place, nothing is bad.
pub proof fn lemma_nothing_bad<T: Named>(found: Seq<Found<T>>, values: Seq<T::V>)
    requires
        found.len() == values.len(),
        forall|i: int|
            0 <= i < found.len() ==> (#[trigger] found[i]).value is Ok && found[i].value->Ok_0@
                == values[i] && T::name_of(values[i]) == found[i].expected_name@,
    ensures
        first_bad(found) is None,
        read_values(found) == values,
    decreases found.len(),
{
    if found.len() > 0 {
        let p = found.drop_last();
        let q = values.drop_last();
        assert forall|i: int| 0 <= i < p.len() implies (#[trigger] p[i]).value is Ok
            && p[i].value->Ok_0@ == q[i] && T::name_of(q[i]) == p[i].expected_name@ by {
            assert(p[i] == found[i] && q[i] == values[i]);
        }
        lemma_nothing_bad(p, q);
        assert(found[found.len() - 1].value is Ok);
    }
    assert(read_values(found) =~= values);
}

proof fn lemma_first_bad_prefix<T: Named>(found: Seq<Found<T>>, i: int)
    requires
        0 <= i <= found.len(),
        first_bad(found.take(i)) is Some,
    ensures
        first_bad(found) == first_bad(found.take(i)),
    decreases found.len(),
{
    if i == found.len() {
        assert(found.take(i) =~= found);
    } else {
        assert(found.drop_last().take(i) =~= found.take(i));
        lemma_first_bad_prefix(found.drop_last(), i);
    }
}

/// Takes what was read over, in order of name. The first resource that could
/// not be read, or whose name is not that of its place, ends it.
pub fn take_found<T: Named + Ranked>(found: Vec<Found<T>>, label: &str, place: &str) -> (r: Result<
    Vec<T>,
    Error,
>)
    ensures
        match first_bad(found@) {
            None => r matches Ok(v) && stable_sort_of::<T>(read_values(found@), views(v@)),
            Some(i) => 0 <= i < found@.len() && match found@[i].value {
                Err(e) => r == Err::<Vec<T>, Error>(e),
                Ok(t) => r matches Err(Error::InvalidFormat { path, message }) && path@
                    == found@[i].path@ && message@ == misnamed(
                    label@,
                    place@,
                    T::name_of(t@),
                    found@[i].expected_name@,
                ),
            },
        },
{
    let mut out: Vec<T> = Vec::new();
    let ghost all = found@;
    let n: usize = found.len();
    let mut i: usize = 0;
    assert(first_bad(all.take(0)) is None);
    for f in it: found
        invariant
            i == it.index(),
            it.seq() == all,
            all == found@,
            n == all.len(),
            out@.len() == i,
            first_bad(all.take(i as int)) is None,
            forall|j: int| 0 <= j < i ==> (#[trigger] out@[j])@ == all[j].value->Ok_0@,
    {
        proof {
            assert(all.take(i + 1).drop_last() =~= all.take(i as int));
            assert(all.take(i + 1).last() == f);
        }
        match f.value {
            Err(e) => {
                proof {
                    lemma_first_bad_prefix(all, i + 1);
                }
                return Err(e);
            },
            Ok(t) => {
                if !str_eq(t.name_ref().as_str(), f.expected_name.as_str()) {
                    proof {
                        lemma_first_bad_prefix(all, i + 1);
                    }
                    let mut message = owned(label);
                    message.push_str(" name '");
                    message.push_str(t.name_ref().as_str());
                    message.push_str("' does not match its ");
                    message.push_str(place);
                    message.push_str(" '");
                    message.push_str(f.expected_name.as_str());
                    message.push_str("'");
                    return Err(Error::InvalidFormat { path: f.path, message });
                }
                out.push(t);
            },
        }
        i = i + 1;
    }
    assert(all.take(i as int) =~= all);
    assert(views(out@) =~= read_values(all));
    Ok(stable_sort(out))
}

/// A name that is used for a file stays in its directory: nothing with a
/// separator in it is such a name, nor is one of the two names that stand for
/// directories. Any other text is.
pub proof fn safe_names_stay_in_their_directory(name: Seq<char>, a: Seq<char>, b: Seq<char>)
    ensures
        !is_safe_name(a + seq!['/'] + b),
        !is_safe_name(a + seq!['\\'] + b),
        !is_safe_name(a + seq!['\0'] + b),
        !is_safe_name(seq!['.']),
        !is_safe_name(seq!['.', '.']),
        !is_safe_name(Seq::empty()),
        name.len() > 2 && !name.contains('/') && !name.contains('\\') && !name.contains('\0')
            ==> is_safe_name(name),
{
    reveal_strlit(".");
    reveal_strlit("..");
    assert(seq!['.'] =~= "."@);
    assert(seq!['.', '.'] =~= ".."@);
    let n = a.len() as int;
    assert((a + seq!['/'] + b)[n] == '/');
    assert((a + seq!['\\'] + b)[n] == '\\');
    assert((a + seq!['\0'] + b)[n] == '\0');
}

/// What is said of a name, a root or a place names it, and the name found
/// comes before the name expected.
pub proof fn refusals_name_what_is_wrong(
    label: Seq<char>,
    place: Seq<char>,
    name: Seq<char>,
    expected: Seq<char>,
)
    ensures
        (label + " name '"@ + name + "'"@).is_prefix_of(unsafe_name(label, name)),
        (label + " name '"@ + name + "'"@).is_prefix_of(misnamed(label, place, name, expected)),
        (place + " '"@ + expected + "'"@).is_suffix_of(misnamed(label, place, name, expected)),
        is_shown(label, no_directory(label)),
{
    reveal_strlit("'");
    reveal_strlit("' contains invalid characters");
    reveal_strlit("' does not match its ");
    let h = label + " name '"@ + name + "'"@;
    let u = unsafe_name(label, name);
    let m = misnamed(label, place, name, expected);
    let z = place + " '"@ + expected + "'"@;
    assert(u.take(h.len() as int) =~= h);
    assert(m.take(h.len() as int) =~= h);
    assert(m.skip(m.len() - z.len()) =~= z);
    lemma_shown_between("expected a directory for the "@, label, " root"@);
}

/// A file name is split at its last dot; a name without one, or with none but
/// at its start, is all stem.
pub proof fn extension_follows_the_last_dot(stem: Seq<char>, extension: Seq<char>)
    requires
        !extension.contains('.'),
    ensures
        stem.len() > 0 ==> stem_and_extension(stem + seq!['.'] + extension) == (
            stem,
            Some(extension),
        ),
        stem_and_extension(seq!['.'] + extension) == (
            seq!['.'] + extension,
            None::<Seq<char>>,
        ),
        stem_and_extension(extension) == (extension, None::<Seq<char>>),
{
    let s = stem + seq!['.'] + extension;
    let n = stem.len() as int;
    s.index_of_last_ensures('.');
    assert(s[n] == '.');
    assert(s.contains('.'));
    let k = s.index_of_last('.')->0;
    assert(k == n) by {
        if k > n {
            assert(extension[k - n - 1] == '.');
        }
        if k < n {
            assert(s[n] != '.');
        }
    }
    assert(s.take(n) =~= stem);
    assert(s.skip(n + 1) =~= extension);
    let d = seq!['.'] + extension;
    d.index_of_last_ensures('.');
    assert(d[0] == '.');
    assert(d.contains('.'));
    let j = d.index_of_last('.')->0;
    assert(j == 0) by {
        if j > 0 {
            assert(extension[j - 1] == '.');
        }
    }
    extension.index_of_last_ensures('.');
}

/// Loading stops at the first resource that could not be read or that has
/// another name than its place, and at no other. Where all were read and are
/// named as their places it does not stop.
pub proof fn first_bad_resource_stops_loading<T: Named>(found: Seq<Found<T>>)
    ensures
        first_bad(found) is None <==> forall|i: int|
            0 <= i < found.len() ==> (#[trigger] found[i]).value is Ok && T::name_of(
                found[i].value->Ok_0@,
            ) == found[i].expected_name@,
        first_bad(found) matches Some(k) ==> 0 <= k < found.len() && (found[k].value is Err
            || T::name_of(found[k].value->Ok_0@) != found[k].expected_name@) && (forall|i: int|
            0 <= i < k ==> (#[trigger] found[i]).value is Ok && T::name_of(found[i].value->Ok_0@)
                == found[i].expected_name@),
    decreases found.len(),
{
    if found.len() > 0 {
        let rest = found.drop_last();
        first_bad_resource_stops_loading(rest);
        assert forall|i: int| 0 <= i < rest.len() implies #[trigger] rest[i] == found[i] by {}
        if first_bad(rest) is None {
            assert forall|i: int| 0 <= i < found.len() - 1 implies (#[trigger] found[i]).value is Ok
                && T::name_of(found[i].value->Ok_0@) == found[i].expected_name@ by {
                assert(rest[i] == found[i]);
            }
        } else {
            let k = first_bad(rest)->0;
            assert(rest[k] == found[k]);
            assert forall|i: int| 0 <= i < k implies (#[trigger] found[i]).value is Ok
                && T::name_of(found[i].value->Ok_0@) == found[i].expected_name@ by {
                assert(rest[i] == found[i]);
            }
        }
    }
}

} // verus!
