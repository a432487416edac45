//! Order: sets of names listed in ascending order, lookup by name and
//! stable sorting.

use crate::text::{str_eq, str_lt, strs, text_lt, owned};
use vstd::prelude::*;

verus! {

broadcast use vstd::seq_lib::group_filter_ensures;

/// The models of a sequence of values.
pub open spec fn views<T: View>(v: Seq<T>) -> Seq<T::V> {
    v.map_values(|t: T| t@)
}

/// The names stand in strictly ascending order.
pub open spec fn ascending(s: Seq<Seq<char>>) -> bool {
    forall|i: int, j: int| 0 <= i < j < s.len() ==> text_lt(#[trigger] s[i], #[trigger] s[j])
}

/// The names of a set in ascending order.
pub open spec fn ordered(s: Set<Seq<char>>) -> Seq<Seq<char>> {
    choose|o: Seq<Seq<char>>| ascending(o) && o.to_set() == s
}

/// A value that is found by its name.
pub trait Named: View {
    spec fn name_of(v: Self::V) -> Seq<char>;

    fn name_ref(&self) -> (r: &String)
        ensures
            r@ == Self::name_of(self@),
    ;
}

/// The names of a sequence of named values.
pub open spec fn names_of<T: Named>(s: Seq<T::V>) -> Seq<Seq<char>> {
    s.map_values(|v: T::V| T::name_of(v))
}

/// The last value that carries the name: what a map holds after the values
/// were entered one after the other.
pub open spec fn last_named<T: Named>(s: Seq<T::V>, name: Seq<char>) -> Option<T::V>
    decreases s.len(),
{
    if s.len() == 0 {
        None
    } else if T::name_of(s.last()) == name {
        Some(s.last())
    } else {
        last_named::<T>(s.drop_last(), name)
    }
}

/// A value that has a place in an order.
pub trait Ranked: View {
    spec fn lt(a: Self::V, b: Self::V) -> bool;

    proof fn lt_irreflexive(a: Self::V)
        ensures
            !Self::lt(a, a),
    ;

    proof fn lt_transitive(a: Self::V, b: Self::V, c: Self::V)
        requires
            Self::lt(a, b),
            Self::lt(b, c),
        ensures
            Self::lt(a, c),
    ;

    proof fn lt_splits(a: Self::V, b: Self::V, c: Self::V)
        requires
            Self::lt(a, c),
        ensures
            Self::lt(a, b) || Self::lt(b, c),
    ;

    fn precedes(&self, other: &Self) -> (r: bool)
        ensures
            r == Self::lt(self@, other@),
    ;
}

/// Neither value stands before the other.
pub open spec fn tied<T: Ranked>(a: T::V, b: T::V) -> bool {
    !T::lt(a, b) && !T::lt(b, a)
}

/// No value stands before one that it follows.
pub open spec fn in_order<T: Ranked>(s: Seq<T::V>) -> bool {
    forall|i: int, j: int| 0 <= i < j < s.len() ==> !T::lt(#[trigger] s[j], #[trigger] s[i])
}

/// The values of `s` that are tied with `v`, in their order in `s`.
pub open spec fn tied_with<T: Ranked>(s: Seq<T::V>, v: T::V) -> Seq<T::V> {
    s.filter(|x: T::V| tied::<T>(x, v))
}

/// `output` holds the values of `input` in order, tied values in the order
/// in which they stand in `input`.
pub open spec fn stable_sort_of<T: Ranked>(input: Seq<T::V>, output: Seq<T::V>) -> bool {
    &&& in_order::<T>(output)
    &&& forall|v: T::V| #[trigger] tied_with::<T>(output, v) == tied_with::<T>(input, v)
}

/// An ascending listing of a set is the only one.
pub proof fn lemma_ordered_unique(o: Seq<Seq<char>>, s: Set<Seq<char>>)
    requires
        ascending(o),
        o.to_set() == s,
    ensures
        o == ordered(s),
{
    let p = ordered(s);
    assert(ascending(p) && p.to_set() == s);
    lemma_ascending_same(o, p);
}

/// Every list of names has an ascending listing.
pub proof fn lemma_ordered_exists(s: Seq<Seq<char>>)
    ensures
        ascending(ordered(s.to_set())),
        ordered(s.to_set()).to_set() == s.to_set(),
{
    let o = lemma_ascending_listing(s);
    assert(ascending(o) && o.to_set() == s.to_set());
}

proof fn lemma_ascending_listing(s: Seq<Seq<char>>) -> (o: Seq<Seq<char>>)
    ensures
        ascending(o),
        o.to_set() == s.to_set(),
    decreases s.len(),
{
    if s.len() == 0 {
        s
    } else {
        let p = lemma_ascending_listing(s.drop_last());
        let x = s.last();
        assert(s =~= s.drop_last().push(x));
        lemma_push_to_set(s.drop_last(), x);
        if p.contains(x) {
            assert(p.to_set().contains(x));
            assert(p.to_set() =~= s.to_set());
            p
        } else {
            let i = lemma_insert_position(p, x, 0);
            lemma_insert_ascending(p, x, i);
            p.insert(i, x)
        }
    }
}

proof fn lemma_insert_position(p: Seq<Seq<char>>, x: Seq<char>, from: int) -> (i: int)
    requires
        ascending(p),
        !p.contains(x),
        0 <= from <= p.len(),
        forall|j: int| 0 <= j < from ==> text_lt(#[trigger] p[j], x),
    ensures
        0 <= i <= p.len(),
        forall|j: int| 0 <= j < i ==> text_lt(#[trigger] p[j], x),
        forall|j: int| i <= j < p.len() ==> text_lt(x, #[trigger] p[j]),
    decreases p.len() - from,
{
    if from == p.len() {
        from
    } else if text_lt(p[from], x) {
        lemma_insert_position(p, x, from + 1)
    } else {
        crate::text::lemma_text_lt_total(p[from], x);
        assert(p.contains(p[from]));
        assert forall|j: int| from <= j < p.len() implies text_lt(x, #[trigger] p[j]) by {
            if j > from {
                crate::text::lemma_text_lt_transitive(x, p[from], p[j]);
            }
        }
        from
    }
}

/// Putting a name where it belongs keeps the list ascending and adds the
/// name.
proof fn lemma_insert_ascending(before: Seq<Seq<char>>, x: Seq<char>, i: int)
    requires
        ascending(before),
        0 <= i <= before.len(),
        forall|j: int| 0 <= j < i ==> text_lt(#[trigger] before[j], x),
        forall|j: int| i <= j < before.len() ==> text_lt(x, #[trigger] before[j]),
    ensures
        ascending(before.insert(i, x)),
        before.insert(i, x).to_set() == before.to_set().insert(x),
{
    let after = before.insert(i, x);
    assert forall|p: int, q: int| 0 <= p < q < after.len() implies text_lt(
        #[trigger] after[p],
        #[trigger] after[q],
    ) by {
        if q < i {
            assert(text_lt(before[p], before[q]));
        } else if q == i {
            assert(text_lt(before[p], x));
        } else if p < i {
            assert(text_lt(before[p], before[q - 1]));
        } else if p == i {
            assert(text_lt(x, before[q - 1]));
        } else {
            assert(text_lt(before[p - 1], before[q - 1]));
        }
    }
    assert forall|v: Seq<char>| after.to_set().contains(v) == before.to_set().insert(
        x,
    ).contains(v) by {
        if after.contains(v) {
            let k = choose|k: int| 0 <= k < after.len() && after[k] == v;
            if k < i {
                assert(before[k] == v);
            } else if k > i {
                assert(before[k - 1] == v);
            }
        }
        if before.contains(v) {
            let k = choose|k: int| 0 <= k < before.len() && before[k] == v;
            if k < i {
                assert(after[k] == v);
            } else {
                assert(after[k + 1] == v);
            }
        }
        assert(after[i] == x);
    }
    assert(after.to_set() =~= before.to_set().insert(x));
}

proof fn lemma_ascending_same(a: Seq<Seq<char>>, b: Seq<Seq<char>>)
    requires
        ascending(a),
        ascending(b),
        a.to_set() == b.to_set(),
    ensures
        a == b,
    decreases a.len(),
{
    assert forall|x: Seq<char>| a.contains(x) == b.contains(x) by {
        assert(a.contains(x) == a.to_set().contains(x));
        assert(b.contains(x) == b.to_set().contains(x));
    }
    if a.len() == 0 {
        if b.len() > 0 {
            assert(b.contains(b[0]));
        }
        assert(a =~= b);
    } else if b.len() == 0 {
        assert(a.contains(a[0]));
    } else {
        assert(a.contains(a[0]) && b.contains(b[0]));
        let i = choose|i: int| 0 <= i < b.len() && b[i] == a[0];
        let j = choose|j: int| 0 <= j < a.len() && a[j] == b[0];
        if i > 0 && j > 0 {
            crate::text::lemma_text_lt_asymmetric(a[0], b[0]);
        }
        assert(a[0] == b[0]);
        let x = a.drop_first();
        let y = b.drop_first();
        assert forall|v: Seq<char>| x.to_set().contains(v) == y.to_set().contains(v) by {
            crate::text::lemma_text_lt_irreflexive(a[0]);
            if x.contains(v) {
                let k = choose|k: int| 0 <= k < x.len() && x[k] == v;
                assert(a[k + 1] == v);
                assert(b.contains(v));
                let m = choose|m: int| 0 <= m < b.len() && b[m] == v;
                assert(text_lt(a[0], a[k + 1]));
                assert(m != 0);
                assert(y[m - 1] == v);
            }
            if y.contains(v) {
                let k = choose|k: int| 0 <= k < y.len() && y[k] == v;
                assert(b[k + 1] == v);
                assert(a.contains(v));
                let m = choose|m: int| 0 <= m < a.len() && a[m] == v;
                assert(text_lt(b[0], b[k + 1]));
                assert(m != 0);
                assert(x[m - 1] == v);
            }
        }
        assert(x.to_set() =~= y.to_set());
        assert(ascending(x)) by {
            assert forall|p: int, q: int| 0 <= p < q < x.len() implies text_lt(
                #[trigger] x[p],
                #[trigger] x[q],
            ) by {
                assert(text_lt(a[p + 1], a[q + 1]));
            }
        }
        assert(ascending(y)) by {
            assert forall|p: int, q: int| 0 <= p < q < y.len() implies text_lt(
                #[trigger] y[p],
                #[trigger] y[q],
            ) by {
                assert(text_lt(b[p + 1], b[q + 1]));
            }
        }
        lemma_ascending_same(x, y);
        assert(a =~= seq![a[0]] + x);
        assert(b =~= seq![b[0]] + y);
    }
}

/// A name is found exactly when it is among the names.
pub proof fn lemma_last_named_some<T: Named>(s: Seq<T::V>, name: Seq<char>)
    ensures
        last_named::<T>(s, name) is Some <==> names_of::<T>(s).contains(name),
        last_named::<T>(s, name) matches Some(v) ==> T::name_of(v) == name && s.contains(v),
    decreases s.len(),
{
    if s.len() > 0 {
        let p = s.drop_last();
        lemma_last_named_some::<T>(p, name);
        let ns = names_of::<T>(s);
        let np = names_of::<T>(p);
        assert(ns =~= np.push(T::name_of(s.last())));
        if np.contains(name) {
            let i = choose|i: int| 0 <= i < np.len() && np[i] == name;
            assert(ns[i] == name);
        }
        if ns.contains(name) && T::name_of(s.last()) != name {
            let i = choose|i: int| 0 <= i < ns.len() && ns[i] == name;
            assert(i < np.len());
            assert(np[i] == name);
        }
        assert(ns.last() == T::name_of(s.last()));
        if last_named::<T>(p, name) is Some {
            let v = last_named::<T>(p, name)->0;
            let i = choose|i: int| 0 <= i < p.len() && p[i] == v;
            assert(s[i] == v);
        }
    }
}

/// The last value at or before a position that no later value shares its
/// name with.
pub proof fn lemma_last_named_at<T: Named>(s: Seq<T::V>, i: int)
    requires
        0 <= i < s.len(),
        forall|j: int| i < j < s.len() ==> T::name_of(#[trigger] s[j]) != T::name_of(s[i]),
    ensures
        last_named::<T>(s, T::name_of(s[i])) == Some(s[i]),
    decreases s.len(),
{
    if i + 1 < s.len() {
        let p = s.drop_last();
        assert forall|j: int| i < j < p.len() implies T::name_of(#[trigger] p[j]) != T::name_of(
            p[i],
        ) by {
            assert(p[j] == s[j]);
        }
        lemma_last_named_at::<T>(p, i);
        assert(T::name_of(s[s.len() - 1]) != T::name_of(s[i]));
    }
}

/// The position of the last value that carries the name.
pub fn find_last_named<T: Named>(v: &Vec<T>, name: &str) -> (r: Option<usize>)
    ensures
        match r {
            Some(i) => i < v@.len() && last_named::<T>(views(v@), name@) == Some(v@[i as int]@),
            None => last_named::<T>(views(v@), name@) is None,
        },
{
    let mut i: usize = v.len();
    assert(views(v@).take(i as int) =~= views(v@));
    while i > 0
        invariant
            i <= v@.len(),
            last_named::<T>(views(v@), name@) == last_named::<T>(views(v@).take(i as int), name@),
        decreases i,
    {
        i = i - 1;
        let ghost before = views(v@).take(i + 1);
        assert(before.last() == v@[i as int]@);
        assert(before.drop_last() =~= views(v@).take(i as int));
        if str_eq(v[i].name_ref().as_str(), name) {
            return Some(i);
        }
    }
    None
}

/// Whether a string is among the strings.
pub fn contains_str(v: &Vec<String>, name: &str) -> (r: bool)
    ensures
        r == strs(v@).contains(name@),
{
    let mut i: usize = 0;
    while i < v.len()
        invariant
            i <= v@.len(),
            forall|j: int| 0 <= j < i ==> strs(v@)[j] != name@,
        decreases v@.len() - i,
    {
        if str_eq(v[i].as_str(), name) {
            assert(strs(v@)[i as int] == name@);
            return true;
        }
        i = i + 1;
    }
    false
}

/// Enters a name into an ascending list unless it is there already.
pub fn insert_name(v: &mut Vec<String>, name: &str)
    requires
        ascending(strs(old(v)@)),
    ensures
        ascending(strs(final(v)@)),
        strs(final(v)@).to_set() == strs(old(v)@).to_set().insert(name@),
{
    let ghost before = strs(v@);
    let mut i: usize = 0;
    while i < v.len() && str_lt(v[i].as_str(), name)
        invariant
            i <= v@.len(),
            strs(v@) == before,
            forall|j: int| 0 <= j < i ==> text_lt(#[trigger] before[j], name@),
        decreases v@.len() - i,
    {
        i = i + 1;
    }
    if i < v.len() && str_eq(v[i].as_str(), name) {
        assert(before[i as int] == name@);
        assert(before.to_set() =~= before.to_set().insert(name@));
        return;
    }
    v.insert(i, owned(name));
    proof {
        let after = strs(v@);
        assert(after =~= before.insert(i as int, name@));
        if i < before.len() {
            crate::text::lemma_text_lt_total(before[i as int], name@);
        }
        assert forall|j: int| i <= j < before.len() implies text_lt(
            name@,
            #[trigger] before[j],
        ) by {
            if j > i {
                assert(text_lt(before[i as int], before[j]));
                crate::text::lemma_text_lt_transitive(name@, before[i as int], before[j]);
            }
        }
        lemma_insert_ascending(before, name@, i as int);
    }
}

/// `map` is what a map by name holds after the values of `list` were entered
/// one after the other: each name once, in ascending order, with its last
/// value.
pub open spec fn is_map_of<T: Named>(list: Seq<T::V>, map: Seq<T::V>) -> bool {
    &&& ascending(names_of::<T>(map))
    &&& names_of::<T>(map).to_set() == names_of::<T>(list).to_set()
    &&& forall|i: int|
        0 <= i < map.len() ==> last_named::<T>(list, T::name_of(#[trigger] map[i])) == Some(
            map[i],
        )
}

/// Entering a value behind the others changes what the map holds under its
/// name and nothing else.
proof fn lemma_entered<T: Named>(
    list: Seq<T::V>,
    map: Seq<T::V>,
    x: T::V,
    after: Seq<T::V>,
    i: int,
)
    requires
        is_map_of::<T>(list, map),
        ascending(names_of::<T>(after)),
        names_of::<T>(after).to_set() == names_of::<T>(map).to_set().insert(T::name_of(x)),
        0 <= i < after.len(),
        after[i] == x,
        forall|j: int|
            0 <= j < after.len() && j != i ==> map.contains(#[trigger] after[j]),
    ensures
        is_map_of::<T>(list.push(x), after),
{
    let now = list.push(x);
    let ns = names_of::<T>(after);
    assert(now.drop_last() =~= list);
    assert(names_of::<T>(now) =~= names_of::<T>(list).push(T::name_of(x)));
    lemma_push_to_set(names_of::<T>(list), T::name_of(x));
    assert forall|j: int| 0 <= j < after.len() implies last_named::<T>(
        now,
        T::name_of(#[trigger] after[j]),
    ) == Some(after[j]) by {
        if j != i {
            assert(map.contains(after[j]));
            let k = choose|k: int| 0 <= k < map.len() && map[k] == after[j];
            assert(last_named::<T>(list, T::name_of(map[k])) == Some(map[k]));
            assert(ns[j] == T::name_of(after[j]) && ns[i] == T::name_of(x));
            if i < j {
                assert(text_lt(ns[i], ns[j]));
            } else {
                assert(text_lt(ns[j], ns[i]));
            }
            crate::text::lemma_text_lt_irreflexive(ns[i]);
        }
    }
}

/// Enters a value into a map by name.
fn enter<T: Named>(v: &mut Vec<T>, item: T, Ghost(list): Ghost<Seq<T::V>>)
    requires
        is_map_of::<T>(list, views(old(v)@)),
    ensures
        is_map_of::<T>(list.push(item@), views(final(v)@)),
{
    let ghost before = views(v@);
    let ghost names = names_of::<T>(before);
    let ghost x = item@;
    let ghost name = T::name_of(x);
    let mut i: usize = 0;
    while i < v.len() && str_lt(v[i].name_ref().as_str(), item.name_ref().as_str())
        invariant
            i <= v@.len(),
            views(v@) == before,
            names == names_of::<T>(before),
            name == T::name_of(item@),
            forall|j: int| 0 <= j < i ==> text_lt(#[trigger] names[j], name),
        decreases v@.len() - i,
    {
        assert(names[i as int] == T::name_of(v@[i as int]@));
        i = i + 1;
    }
    if i < v.len() && str_eq(v[i].name_ref().as_str(), item.name_ref().as_str()) {
        v.set(i, item);
        proof {
            let after = views(v@);
            assert(names[i as int] == name);
            assert(after =~= before.update(i as int, x));
            assert(names_of::<T>(after) =~= names);
            assert(names.to_set() =~= names.to_set().insert(name));
            assert forall|j: int| 0 <= j < after.len() && j != i implies before.contains(
                #[trigger] after[j],
            ) by {
                assert(before[j] == after[j]);
            }
            lemma_entered::<T>(list, before, x, after, i as int);
        }
        return;
    }
    v.insert(i, item);
    proof {
        let after = views(v@);
        assert(after =~= before.insert(i as int, x));
        assert(names_of::<T>(after) =~= names.insert(i as int, name));
        if i < names.len() {
            crate::text::lemma_text_lt_total(names[i as int], name);
        }
        assert forall|j: int| i <= j < names.len() implies text_lt(name, #[trigger] names[j]) by {
            if j > i {
                assert(text_lt(names[i as int], names[j]));
                crate::text::lemma_text_lt_transitive(name, names[i as int], names[j]);
            }
        }
        lemma_insert_ascending(names, name, i as int);
        assert forall|j: int| 0 <= j < after.len() && j != i implies before.contains(
            #[trigger] after[j],
        ) by {
            if j < i {
                assert(before[j] == after[j]);
            } else {
                assert(before[j - 1] == after[j]);
            }
        }
        lemma_entered::<T>(list, before, x, after, i as int);
    }
}

/// The values of a list by name, in ascending order. Of those with the same
/// name the last counts.
pub fn map_by_name<T: Named>(list: Vec<T>) -> (r: Vec<T>)
    ensures
        is_map_of::<T>(views(list@), views(r@)),
{
    let ghost all = list@;
    let mut out: Vec<T> = Vec::new();
    let len: usize = list.len();
    let mut n: usize = 0;
    assert(views(all.take(0)) =~= views(out@));
    for item in it: list
        invariant
            n == it.index(),
            it.seq() == all,
            len == all.len(),
            is_map_of::<T>(views(all.take(n as int)), views(out@)),
    {
        assert(views(all.take(n + 1)) =~= views(all.take(n as int)).push(item@));
        enter(&mut out, item, Ghost(views(all.take(n as int))));
        n = n + 1;
    }
    assert(all.take(n as int) =~= all);
    out
}

/// Enters the names of all values into an ascending list.
pub fn insert_names<T: Named>(v: &mut Vec<String>, items: &Vec<T>)
    requires
        ascending(strs(old(v)@)),
    ensures
        ascending(strs(final(v)@)),
        strs(final(v)@).to_set() == strs(old(v)@).to_set().union(
            names_of::<T>(views(items@)).to_set(),
        ),
{
    let ghost before = strs(v@).to_set();
    let ghost ns = names_of::<T>(views(items@));
    let mut i: usize = 0;
    assert(before.union(ns.take(0).to_set()) =~= before);
    while i < items.len()
        invariant
            i <= items@.len(),
            ns == names_of::<T>(views(items@)),
            ascending(strs(v@)),
            strs(v@).to_set() == before.union(ns.take(i as int).to_set()),
        decreases items@.len() - i,
    {
        insert_name(v, items[i].name_ref().as_str());
        proof {
            let t = ns.take(i as int);
            let u = ns.take(i + 1);
            assert(ns[i as int] == T::name_of(items@[i as int]@));
            assert(u =~= t.push(ns[i as int]));
            lemma_push_to_set(t, ns[i as int]);
            assert(before.union(u.to_set()) =~= before.union(t.to_set()).insert(ns[i as int]));
        }
        i = i + 1;
    }
    assert(ns.take(i as int) =~= ns);
}

/// Appending an element adds it to the set of elements.
pub proof fn lemma_push_to_set<A>(s: Seq<A>, x: A)
    ensures
        s.push(x).to_set() == s.to_set().insert(x),
{
    let t = s.push(x);
    assert forall|v: A| t.to_set().contains(v) == s.to_set().insert(x).contains(v) by {
        if s.contains(v) {
            let k = choose|k: int| 0 <= k < s.len() && s[k] == v;
            assert(t[k] == v);
        }
        assert(t[s.len() as int] == x);
    }
    assert(t.to_set() =~= s.to_set().insert(x));
}

/// Sorts stably.
pub fn stable_sort<T: Ranked>(v: Vec<T>) -> (r: Vec<T>)
    ensures
        stable_sort_of::<T>(views(v@), views(r@)),
        r@.to_multiset() == v@.to_multiset(),
{
    let mut rest = v;
    let mut out: Vec<T> = Vec::new();
    let ghost all = v@;
    proof {
        assert(all.skip(all.len() as int) =~= Seq::<T>::empty());
        assert forall|p: T::V| #[trigger] tied_with::<T>(views(out@), p) == tied_with::<T>(
            views(all.skip(all.len() as int)),
            p,
        ) by {
            assert(views(out@) =~= views(all.skip(all.len() as int)));
        }
        assert(out@ =~= all.skip(all.len() as int));
    }
    while rest.len() > 0
        invariant
            rest@ == all.take(rest@.len() as int),
            rest@.len() <= all.len(),
            stable_sort_of::<T>(views(all.skip(rest@.len() as int)), views(out@)),
            out@.to_multiset() == all.skip(rest@.len() as int).to_multiset(),
        decreases rest@.len(),
    {
        let ghost n = rest@.len() as int;
        let popped = rest.pop();
        let x = popped.unwrap();
        assert(x == all[n - 1]);
        assert(rest@ =~= all.take(n - 1));
        let mut pos: usize = 0;
        while pos < out.len() && out[pos].precedes(&x)
            invariant
                pos <= out@.len(),
                forall|j: int| 0 <= j < pos ==> T::lt(#[trigger] views(out@)[j], x@),
            decreases out@.len() - pos,
        {
            pos = pos + 1;
        }
        let ghost before = out@;
        assert(pos < before.len() ==> !T::lt(views(before)[pos as int], x@));
        out.insert(pos, x);
        proof {
            lemma_insert_keeps_sort::<T>(views(all.skip(n)), views(before), x@, pos as int);
            assert(views(out@) =~= views(before).insert(pos as int, x@));
            assert(all.skip(n - 1) =~= seq![x] + all.skip(n));
            assert(views(all.skip(n - 1)) =~= seq![x@] + views(all.skip(n)));
            assert(out@ =~= before.insert(pos as int, x));
            lemma_insert_multiset(before, x, pos as int);
            vstd::seq_lib::lemma_multiset_commutative(seq![x], all.skip(n));
            vstd::seq_lib::lemma_multiset_commutative(all.skip(n), seq![x]);
            assert(all.skip(n) + seq![x] =~= all.skip(n).push(x));
            assert((seq![x] + all.skip(n)).to_multiset() =~= (all.skip(n) + seq![x]).to_multiset());
            vstd::seq_lib::to_multiset_build(all.skip(n), x);
        }
    }
    assert(all.skip(0) =~= all);
    out
}

proof fn lemma_insert_multiset<A>(s: Seq<A>, x: A, pos: int)
    requires
        0 <= pos <= s.len(),
    ensures
        s.insert(pos, x).to_multiset() == s.to_multiset().insert(x),
{
    vstd::seq_lib::to_multiset_insert(s, pos, x);
}

proof fn lemma_insert_keeps_sort<T: Ranked>(
    input: Seq<T::V>,
    output: Seq<T::V>,
    x: T::V,
    pos: int,
)
    requires
        stable_sort_of::<T>(input, output),
        0 <= pos <= output.len(),
        forall|j: int| 0 <= j < pos ==> T::lt(#[trigger] output[j], x),
        pos < output.len() ==> !T::lt(output[pos], x),
    ensures
        stable_sort_of::<T>(seq![x] + input, output.insert(pos, x)),
{
    let out = output.insert(pos, x);
    let a = output.take(pos);
    let b = output.skip(pos);
    assert(out =~= a + seq![x] + b);
    assert(output =~= a + b);
    assert forall|i: int, j: int| 0 <= i < j < out.len() implies !T::lt(
        #[trigger] out[j],
        #[trigger] out[i],
    ) by {
        T::lt_irreflexive(x);
        if i == pos {
            assert(out[j] == output[j - 1]);
            if T::lt(output[j - 1], x) && j - 1 > pos {
                T::lt_splits(output[j - 1], output[pos], x);
            }
        } else if j == pos {
            assert(out[i] == output[i]);
            if T::lt(x, output[i]) {
                T::lt_transitive(output[i], x, output[i]);
                T::lt_irreflexive(output[i]);
            }
        } else {
            let ii = if i < pos { i } else { i - 1 };
            let jj = if j < pos { j } else { j - 1 };
            assert(out[i] == output[ii] && out[j] == output[jj]);
        }
    }
    assert forall|v: T::V| #[trigger] tied_with::<T>(out, v) == tied_with::<T>(
        seq![x] + input,
        v,
    ) by {
        let f = |y: T::V| tied::<T>(y, v);
        Seq::filter_distributes_over_add(a + seq![x], b, f);
        Seq::filter_distributes_over_add(a, seq![x], f);
        Seq::filter_distributes_over_add(a, b, f);
        Seq::filter_distributes_over_add(seq![x], input, f);
        assert(tied_with::<T>(output, v) == tied_with::<T>(input, v));
        if tied::<T>(x, v) {
            lemma_none_tied::<T>(a, x, v);
            assert(a.filter(f) =~= Seq::empty());
            assert(out.filter(f) =~= seq![x].filter(f) + b.filter(f));
            assert(output.filter(f) =~= b.filter(f));
        } else {
            lemma_filter_one(x, f);
            assert(seq![x].filter(f) =~= Seq::empty());
            assert(out.filter(f) =~= output.filter(f));
            assert((seq![x] + input).filter(f) =~= input.filter(f));
        }
    }
}

/// Filtering a single value.
pub proof fn lemma_filter_one<A>(x: A, f: spec_fn(A) -> bool)
    ensures
        seq![x].filter(f) == if f(x) { seq![x] } else { Seq::<A>::empty() },
{
    let s = seq![x];
    reveal_with_fuel(Seq::filter, 2);
    assert(s.drop_last() =~= Seq::<A>::empty());
    assert(s.last() == x);
    assert(Seq::<A>::empty().push(x) =~= seq![x]);
}

/// Values before `x` are not tied with what `x` is tied with.
proof fn lemma_none_tied<T: Ranked>(a: Seq<T::V>, x: T::V, v: T::V)
    requires
        forall|j: int| 0 <= j < a.len() ==> T::lt(#[trigger] a[j], x),
        tied::<T>(x, v),
    ensures
        tied_with::<T>(a, v) == Seq::<T::V>::empty(),
    decreases a.len(),
{
    reveal(Seq::filter);
    if a.len() > 0 {
        let p = a.drop_last();
        assert forall|j: int| 0 <= j < p.len() implies T::lt(#[trigger] p[j], x) by {
            assert(p[j] == a[j]);
        }
        lemma_none_tied::<T>(p, x, v);
        assert(T::lt(a[a.len() - 1], x));
        T::lt_splits(a.last(), v, x);
    }
}

/// A sequence has one stable sort.
pub proof fn lemma_stable_sort_unique<T: Ranked>(
    input: Seq<T::V>,
    a: Seq<T::V>,
    b: Seq<T::V>,
)
    requires
        stable_sort_of::<T>(input, a),
        stable_sort_of::<T>(input, b),
    ensures
        a == b,
{
    assert forall|v: T::V| #[trigger] tied_with::<T>(a, v) == tied_with::<T>(b, v) by {
        assert(tied_with::<T>(a, v) == tied_with::<T>(input, v));
        assert(tied_with::<T>(b, v) == tied_with::<T>(input, v));
    }
    lemma_same_tied::<T>(a, b);
}

proof fn lemma_same_tied<T: Ranked>(a: Seq<T::V>, b: Seq<T::V>)
    requires
        in_order::<T>(a),
        in_order::<T>(b),
        forall|v: T::V| #[trigger] tied_with::<T>(a, v) == tied_with::<T>(b, v),
    ensures
        a == b,
    decreases a.len(),
{
    if a.len() == 0 {
        if b.len() > 0 {
            lemma_tied_head::<T>(b);
            assert(tied_with::<T>(a, b[0]) == tied_with::<T>(b, b[0]));
            reveal(Seq::filter);
        }
        assert(a =~= b);
    } else if b.len() == 0 {
        lemma_tied_head::<T>(a);
        assert(tied_with::<T>(a, a[0]) == tied_with::<T>(b, a[0]));
        reveal(Seq::filter);
    } else {
        lemma_tied_head::<T>(a);
        lemma_tied_head::<T>(b);
        let x = a[0];
        let y = b[0];
        assert(tied_with::<T>(a, x) == tied_with::<T>(b, x));
        assert(tied_with::<T>(a, y) == tied_with::<T>(b, y));
        lemma_tied_member::<T>(b, x);
        lemma_tied_member::<T>(a, y);
        assert(tied::<T>(y, x));
        assert(x == y) by {
            let f = |z: T::V| tied::<T>(z, x);
            lemma_filter_head(b, f);
            lemma_filter_head(a, f);
            T::lt_irreflexive(x);
        }
        let p = a.drop_first();
        let q = b.drop_first();
        assert(a =~= seq![x] + p);
        assert(b =~= seq![x] + q);
        assert forall|v: T::V| #[trigger] tied_with::<T>(p, v) == tied_with::<T>(q, v) by {
            let f = |z: T::V| tied::<T>(z, v);
            Seq::filter_distributes_over_add(seq![x], p, f);
            Seq::filter_distributes_over_add(seq![x], q, f);
            assert(tied_with::<T>(a, v) == tied_with::<T>(b, v));
            let h = seq![x].filter(f);
            assert((h + p.filter(f)).skip(h.len() as int) =~= p.filter(f));
            assert((h + q.filter(f)).skip(h.len() as int) =~= q.filter(f));
        }
        assert forall|i: int, j: int| 0 <= i < j < p.len() implies !T::lt(
            #[trigger] p[j],
            #[trigger] p[i],
        ) by {
            assert(!T::lt(a[j + 1], a[i + 1]));
        }
        assert forall|i: int, j: int| 0 <= i < j < q.len() implies !T::lt(
            #[trigger] q[j],
            #[trigger] q[i],
        ) by {
            assert(!T::lt(b[j + 1], b[i + 1]));
        }
        lemma_same_tied::<T>(p, q);
    }
}

proof fn lemma_filter_head<A>(s: Seq<A>, f: spec_fn(A) -> bool)
    requires
        s.len() > 0,
        f(s[0]),
    ensures
        s.filter(f).len() > 0,
        s.filter(f)[0] == s[0],
{
    let p = s.drop_first();
    assert(s =~= seq![s[0]] + p);
    Seq::filter_distributes_over_add(seq![s[0]], p, f);
    lemma_filter_one(s[0], f);
}

proof fn lemma_tied_head<T: Ranked>(s: Seq<T::V>)
    requires
        s.len() > 0,
    ensures
        tied_with::<T>(s, s[0]).len() > 0,
        tied_with::<T>(s, s[0])[0] == s[0],
{
    T::lt_irreflexive(s[0]);
    lemma_filter_head(s, |z: T::V| tied::<T>(z, s[0]));
}

/// Where something is tied with `v`, the first value is not after `v`.
proof fn lemma_tied_member<T: Ranked>(s: Seq<T::V>, v: T::V)
    requires
        in_order::<T>(s),
        s.len() > 0,
        tied_with::<T>(s, v).len() > 0,
    ensures
        !T::lt(v, s[0]),
{
    let f = |z: T::V| tied::<T>(z, v);
    let w = s.filter(f)[0];
    assert(s.filter(f).contains(w));
    s.lemma_filter_contains_rev(f, w);
    let k = choose|k: int| 0 <= k < s.len() && s[k] == w;
    assert(f(w)) by {
        broadcast use vstd::seq_lib::group_filter_ensures;
        assert(f(s.filter(f)[0]));
    }
    if T::lt(v, s[0]) {
        T::lt_splits(v, w, s[0]);
        if k > 0 {
            assert(!T::lt(s[k], s[0]));
        } else {
            T::lt_irreflexive(w);
        }
    }
}

/// Sorting what is sorted changes nothing.
pub proof fn sorting_twice_is_sorting_once<T: Ranked>(
    input: Seq<T::V>,
    once: Seq<T::V>,
    twice: Seq<T::V>,
)
    requires
        stable_sort_of::<T>(input, once),
        stable_sort_of::<T>(once, twice),
    ensures
        twice == once,
{
    lemma_stable_sort_unique::<T>(once, once, twice);
}

proof fn lemma_tied_never<T: Ranked>(s: Seq<T::V>, v: T::V)
    requires
        forall|i: int| 0 <= i < s.len() ==> !tied::<T>(#[trigger] s[i], v),
    ensures
        tied_with::<T>(s, v) == Seq::<T::V>::empty(),
    decreases s.len(),
{
    reveal(Seq::filter);
    if s.len() > 0 {
        let p = s.drop_last();
        assert forall|i: int| 0 <= i < p.len() implies !tied::<T>(#[trigger] p[i], v) by {
            assert(p[i] == s[i]);
        }
        lemma_tied_never::<T>(p, v);
        assert(!tied::<T>(s[s.len() - 1], v));
    }
    assert(tied_with::<T>(s, v) =~= Seq::<T::V>::empty());
}

proof fn lemma_tied_once<T: Named + Ranked>(s: Seq<<T as View>::V>, v: <T as View>::V, i: int)
    requires
        forall|x: <T as View>::V, y: <T as View>::V| #[trigger]
            tied::<T>(x, y) ==> T::name_of(x) == T::name_of(y),
        names_of::<T>(s).no_duplicates(),
        0 <= i < s.len(),
        tied::<T>(s[i], v),
    ensures
        tied_with::<T>(s, v) == seq![s[i]],
    decreases s.len(),
{
    reveal(Seq::filter);
    let ns = names_of::<T>(s);
    let p = s.drop_last();
    assert forall|j: int| 0 <= j < s.len() && j != i implies !tied::<T>(#[trigger] s[j], v) by {
        if tied::<T>(s[j], v) {
            assert(ns[j] == ns[i]);
        }
    }
    if i == s.len() - 1 {
        assert forall|j: int| 0 <= j < p.len() implies !tied::<T>(#[trigger] p[j], v) by {
            assert(p[j] == s[j]);
        }
        lemma_tied_never::<T>(p, v);
        assert(tied_with::<T>(s, v) =~= seq![s[i]]);
    } else {
        let np = names_of::<T>(p);
        assert forall|a: int, b: int| 0 <= a < np.len() && 0 <= b < np.len() && a != b implies np[a]
            != np[b] by {
            assert(np[a] == ns[a] && np[b] == ns[b]);
        }
        assert(p[i] == s[i]);
        lemma_tied_once::<T>(p, v, i);
        assert(!tied::<T>(s[s.len() - 1], v));
    }
}

/// Sorting values of distinct names gives the same in whatever order they are
/// given, where only values of the same name are tied.
pub proof fn sorting_ignores_given_order<T: Named + Ranked>(
    a: Seq<<T as View>::V>,
    b: Seq<<T as View>::V>,
    out: Seq<<T as View>::V>,
)
    requires
        forall|x: <T as View>::V, y: <T as View>::V| #[trigger]
            tied::<T>(x, y) ==> T::name_of(x) == T::name_of(y),
        names_of::<T>(a).no_duplicates(),
        names_of::<T>(b).no_duplicates(),
        a.to_set() == b.to_set(),
        stable_sort_of::<T>(a, out),
    ensures
        stable_sort_of::<T>(b, out),
{
    assert forall|v: <T as View>::V| #[trigger] tied_with::<T>(out, v) == tied_with::<T>(b, v) by {
        assert(tied_with::<T>(out, v) == tied_with::<T>(a, v));
        if exists|i: int| 0 <= i < a.len() && tied::<T>(#[trigger] a[i], v) {
            let i = choose|i: int| 0 <= i < a.len() && tied::<T>(#[trigger] a[i], v);
            assert(a.to_set().contains(a[i]));
            assert(b.to_set().contains(a[i]));
            let j = choose|j: int| 0 <= j < b.len() && b[j] == a[i];
            lemma_tied_once::<T>(a, v, i);
            lemma_tied_once::<T>(b, v, j);
        } else {
            lemma_tied_never::<T>(a, v);
            assert forall|j: int| 0 <= j < b.len() implies !tied::<T>(#[trigger] b[j], v) by {
                assert(b.to_set().contains(b[j]));
                assert(a.to_set().contains(b[j]));
                let i = choose|i: int| 0 <= i < a.len() && a[i] == b[j];
                assert(!tied::<T>(a[i], v));
            }
            lemma_tied_never::<T>(b, v);
        }
    }
}

/// A map by name holds for every value of the list one value of that name,
/// the last that the list has, and no value that the list has not.
pub proof fn map_holds_the_last_of_each_name<T: Named>(
    list: Seq<T::V>,
    map: Seq<T::V>,
    i: int,
    j: int,
)
    requires
        is_map_of::<T>(list, map),
    ensures
        0 <= i < list.len() ==> exists|k: int|
            0 <= k < map.len() && T::name_of(#[trigger] map[k]) == T::name_of(list[i]),
        0 <= i < list.len() && (forall|k: int|
            i < k < list.len() ==> T::name_of(#[trigger] list[k]) != T::name_of(list[i]))
            ==> map.contains(list[i]),
        0 <= j < map.len() ==> list.contains(map[j]),
        0 <= i < j < map.len() ==> text_lt(T::name_of(map[i]), T::name_of(map[j])),
{
    let ln = names_of::<T>(list);
    let mn = names_of::<T>(map);
    if 0 <= i < list.len() {
        assert(ln[i] == T::name_of(list[i]));
        assert(ln.contains(ln[i]));
        assert(mn.to_set().contains(ln[i]));
        let k = choose|k: int| 0 <= k < mn.len() && mn[k] == ln[i];
        assert(T::name_of(map[k]) == T::name_of(list[i]));
        if forall|k: int|
            i < k < list.len() ==> T::name_of(#[trigger] list[k]) != T::name_of(list[i]) {
            lemma_last_named_at::<T>(list, i);
            assert(last_named::<T>(list, T::name_of(map[k])) == Some(map[k]));
            assert(map[k] == list[i]);
        }
    }
    if 0 <= j < map.len() {
        assert(last_named::<T>(list, T::name_of(map[j])) == Some(map[j]));
        lemma_last_named_some::<T>(list, T::name_of(map[j]));
    }
    if 0 <= i < j < map.len() {
        assert(mn[i] == T::name_of(map[i]));
        assert(mn[j] == T::name_of(map[j]));
    }
}

} // verus!
