//! Catalog schema diff.

use crate::diff::DiffOp;
use crate::order::{
    ascending, find_last_named, insert_names, last_named, lemma_last_named_some,
    lemma_ordered_unique, names_of, ordered, views, Named,
};
use crate::resource::catalog::{CatalogFieldView, CatalogView};
use crate::resource::{Catalog, CatalogField};
use crate::text::{strs, text_lt};
use vstd::prelude::*;

verus! {

#[derive(Debug)]
pub struct CatalogSchemaDiff {
    pub name: String,
    pub op: DiffOp<Catalog>,
    pub field_diffs: Vec<DiffOp<CatalogField>>,
}

/// What a catalog schema diff is.
#[verifier::ext_equal]
pub struct CatalogSchemaDiffView {
    pub name: Seq<char>,
    pub op: DiffOp<CatalogView>,
    pub field_diffs: Seq<DiffOp<CatalogFieldView>>,
}

impl View for CatalogSchemaDiff {
    type V = CatalogSchemaDiffView;

    open spec fn view(&self) -> CatalogSchemaDiffView {
        CatalogSchemaDiffView {
            name: self.name@,
            op: self.op@,
            field_diffs: views(self.field_diffs@),
        }
    }
}

impl CatalogSchemaDiffView {
    pub open spec fn has_changes(self) -> bool {
        self.op !is Unchanged || exists|i: int|
            0 <= i < self.field_diffs.len() && #[trigger] self.field_diffs[i] !is Unchanged
    }

    /// The catalog or one of its fields goes away.
    pub open spec fn has_destructive(self) -> bool {
        self.op is Removed || exists|i: int|
            0 <= i < self.field_diffs.len() && #[trigger] self.field_diffs[i] is Removed
    }
}

impl CatalogSchemaDiff {
    pub fn has_changes(&self) -> (r: bool)
        ensures
            r == self@.has_changes(),
    {
        if self.op.is_change() {
            return true;
        }
        let mut i: usize = 0;
        while i < self.field_diffs.len()
            invariant
                i <= self.field_diffs@.len(),
                self.op is Unchanged,
                forall|j: int| 0 <= j < i ==> (#[trigger] self@.field_diffs[j]) is Unchanged,
            decreases self.field_diffs@.len() - i,
        {
            if self.field_diffs[i].is_change() {
                assert(self@.field_diffs[i as int] !is Unchanged);
                return true;
            }
            i = i + 1;
        }
        false
    }

    pub fn has_destructive(&self) -> (r: bool)
        ensures
            r == self@.has_destructive(),
    {
        if self.op.is_destructive() {
            return true;
        }
        self.drops_field()
    }

    /// Whether one of the catalog's fields goes away.
    pub fn drops_field(&self) -> (r: bool)
        ensures
            r == exists|i: int|
                0 <= i < self@.field_diffs.len() && #[trigger] self@.field_diffs[i] is Removed,
    {
        let mut i: usize = 0;
        while i < self.field_diffs.len()
            invariant
                i <= self.field_diffs@.len(),
                forall|j: int| 0 <= j < i ==> (#[trigger] self@.field_diffs[j]) !is Removed,
            decreases self.field_diffs@.len() - i,
        {
            if self.field_diffs[i].is_destructive() {
                assert(self@.field_diffs[i as int] is Removed);
                return true;
            }
            i = i + 1;
        }
        false
    }
}

/// The names of a list of fields.
pub open spec fn field_names(s: Seq<CatalogFieldView>) -> Set<Seq<char>> {
    names_of::<CatalogField>(s).to_set()
}

/// What has to happen in Braze for a field that is wanted. Where a name is
/// repeated the last entry counts.
pub open spec fn wanted_field_op(
    local: Seq<CatalogFieldView>,
    remote: Seq<CatalogFieldView>,
    name: Seq<char>,
) -> DiffOp<CatalogFieldView> {
    let l = last_named::<CatalogField>(local, name)->0;
    match last_named::<CatalogField>(remote, name) {
        None => DiffOp::Added(l),
        Some(r) => if r == l {
            DiffOp::Unchanged
        } else {
            DiffOp::Modified { from: r, to: l }
        },
    }
}

/// What has to happen in Braze for a field that Braze has.
pub open spec fn present_field_op(
    local: Seq<CatalogFieldView>,
    remote: Seq<CatalogFieldView>,
    name: Seq<char>,
) -> DiffOp<CatalogFieldView> {
    if field_names(local).contains(name) {
        DiffOp::Unchanged
    } else {
        DiffOp::Removed(last_named::<CatalogField>(remote, name)->0)
    }
}

/// The changes among the operations.
pub open spec fn changes(s: Seq<DiffOp<CatalogFieldView>>) -> Seq<DiffOp<CatalogFieldView>> {
    s.filter(|op: DiffOp<CatalogFieldView>| op !is Unchanged)
}

/// The changes that turn the remote fields into the local ones: additions and
/// modifications in ascending order of names, then removals in ascending
/// order of names.
pub open spec fn field_ops(
    local: Seq<CatalogFieldView>,
    remote: Seq<CatalogFieldView>,
) -> Seq<DiffOp<CatalogFieldView>> {
    changes(
        ordered(field_names(local)).map_values(|n: Seq<char>| wanted_field_op(local, remote, n)),
    ) + changes(
        ordered(field_names(remote)).map_values(|n: Seq<char>| present_field_op(local, remote, n)),
    )
}

/// What comparing the desired catalog with the catalog in Braze gives.
pub open spec fn schema_diff(
    local: Option<CatalogView>,
    remote: Option<CatalogView>,
) -> Option<CatalogSchemaDiffView> {
    match (local, remote) {
        (None, None) => None,
        (Some(l), None) => Some(
            CatalogSchemaDiffView {
                name: l.name,
                op: DiffOp::Added(l),
                field_diffs: l.fields.map_values(|f: CatalogFieldView| DiffOp::Added(f)),
            },
        ),
        (None, Some(r)) => Some(
            CatalogSchemaDiffView {
                name: r.name,
                op: DiffOp::Removed(r),
                field_diffs: Seq::empty(),
            },
        ),
        (Some(l), Some(r)) => Some(
            CatalogSchemaDiffView {
                name: l.name,
                op: if field_ops(l.fields, r.fields).len() == 0 {
                    DiffOp::Unchanged
                } else {
                    DiffOp::Modified { from: r, to: l }
                },
                field_diffs: field_ops(l.fields, r.fields),
            },
        ),
    }
}

/// The model of an optional catalog.
pub open spec fn opt_view(o: Option<&Catalog>) -> Option<CatalogView> {
    match o {
        Some(c) => Some(c@),
        None => None,
    }
}

/// The model of an optional diff.
pub open spec fn opt_diff_view(o: Option<CatalogSchemaDiff>) -> Option<CatalogSchemaDiffView> {
    match o {
        Some(d) => Some(d@),
        None => None,
    }
}

/// Compares the desired catalog with the catalog in Braze. `None` only when
/// both are absent. Descriptions take no part: Braze has no call that
/// updates one.
pub fn diff_schema(local: Option<&Catalog>, remote: Option<&Catalog>) -> (r: Option<
    CatalogSchemaDiff,
>)
    ensures
        opt_diff_view(r) == schema_diff(opt_view(local), opt_view(remote)),
{
    match (local, remote) {
        (None, None) => None,
        (Some(l), None) => {
            let d = CatalogSchemaDiff {
                name: l.name.clone(),
                op: DiffOp::Added(l.clone()),
                field_diffs: all_added(&l.fields),
            };
            Some(d)
        },
        (None, Some(r)) => {
            let d = CatalogSchemaDiff {
                name: r.name.clone(),
                op: DiffOp::Removed(r.clone()),
                field_diffs: Vec::new(),
            };
            assert(d@.field_diffs =~= Seq::empty());
            Some(d)
        },
        (Some(l), Some(r)) => {
            let field_diffs = diff_fields(&l.fields, &r.fields);
            let op = if field_diffs.len() == 0 {
                DiffOp::Unchanged
            } else {
                DiffOp::Modified { from: r.clone(), to: l.clone() }
            };
            Some(CatalogSchemaDiff { name: l.name.clone(), op, field_diffs })
        },
    }
}

fn all_added(fields: &Vec<CatalogField>) -> (r: Vec<DiffOp<CatalogField>>)
    ensures
        views(r@) == views(fields@).map_values(|f: CatalogFieldView| DiffOp::Added(f)),
{
    let mut out: Vec<DiffOp<CatalogField>> = Vec::new();
    let mut i: usize = 0;
    while i < fields.len()
        invariant
            i <= fields@.len(),
            out@.len() == i,
            forall|j: int| 0 <= j < i ==> (#[trigger] out@[j])@ == DiffOp::Added(fields@[j]@),
        decreases fields@.len() - i,
    {
        out.push(DiffOp::Added(fields[i].clone()));
        i = i + 1;
    }
    assert(views(out@) =~= views(fields@).map_values(|f: CatalogFieldView| DiffOp::Added(f)));
    out
}

/// The names of a list of fields, each once, in ascending order.
pub fn ordered_field_names(fields: &Vec<CatalogField>) -> (r: Vec<String>)
    ensures
        strs(r@) == ordered(field_names(views(fields@))),
{
    let mut names: Vec<String> = Vec::new();
    assert(strs(names@) =~= Seq::empty());
    insert_names(&mut names, fields);
    proof {
        assert(strs(names@).to_set() =~= field_names(views(fields@)));
        crate::order::lemma_ordered_unique(strs(names@), field_names(views(fields@)));
    }
    names
}

fn field_eq(a: &CatalogField, b: &CatalogField) -> (r: bool)
    ensures
        r == (a@ == b@),
{
    a.name == b.name && a.field_type == b.field_type
}

/// The changes that turn the remote fields into the local ones. Fields that
/// agree are left out.
pub fn diff_fields(local: &Vec<CatalogField>, remote: &Vec<CatalogField>) -> (r: Vec<
    DiffOp<CatalogField>,
>)
    ensures
        views(r@) == field_ops(views(local@), views(remote@)),
{
    let ghost lv = views(local@);
    let ghost rv = views(remote@);
    let ghost wanted = ordered(field_names(lv)).map_values(
        |n: Seq<char>| wanted_field_op(lv, rv, n),
    );
    let ghost present = ordered(field_names(rv)).map_values(
        |n: Seq<char>| present_field_op(lv, rv, n),
    );
    let names = ordered_field_names(local);
    let mut ops: Vec<DiffOp<CatalogField>> = Vec::new();
    let mut i: usize = 0;
    proof {
        lemma_ordered_members(lv);
        lemma_ordered_members(rv);
        reveal(Seq::filter);
        assert(changes(wanted.take(0)) =~= Seq::empty());
    }
    assert(views(ops@) =~= changes(wanted.take(0)));
    while i < names.len()
        invariant
            i <= names@.len(),
            lv == views(local@),
            rv == views(remote@),
            strs(names@) == ordered(field_names(lv)),
            forall|j: int|
                0 <= j < ordered(field_names(lv)).len() ==> field_names(lv).contains(
                    #[trigger] ordered(field_names(lv))[j],
                ),
            wanted == ordered(field_names(lv)).map_values(
                |n: Seq<char>| wanted_field_op(lv, rv, n),
            ),
            views(ops@) == changes(wanted.take(i as int)),
        decreases names@.len() - i,
    {
        let name = names[i].as_str();
        let ghost before = ops@;
        proof {
            assert(strs(names@)[i as int] == name@);
            assert(field_names(lv).contains(name@));
            lemma_last_named_some::<CatalogField>(lv, name@);
            assert(wanted[i as int] == wanted_field_op(lv, rv, name@));
            lemma_changes_step(wanted, i as int);
        }
        let found = find_last_named(local, name);
        let li = found.unwrap();
        match find_last_named(remote, name) {
            None => {
                ops.push(DiffOp::Added(local[li].clone()));
            },
            Some(ri) => {
                if !field_eq(&remote[ri], &local[li]) {
                    ops.push(DiffOp::Modified { from: remote[ri].clone(), to: local[li].clone() });
                }
            },
        }
        proof {
            if ops@.len() > before.len() {
                assert(views(ops@) =~= views(before).push(ops@.last()@));
            }
        }
        i = i + 1;
    }
    proof {
        assert(wanted.take(i as int) =~= wanted);
        assert(changes(present.take(0)) =~= Seq::empty()) by {
            reveal(Seq::filter);
        }
        assert(views(ops@) =~= changes(wanted) + changes(present.take(0)));
    }
    let present_names = ordered_field_names(remote);
    let mut k: usize = 0;
    while k < present_names.len()
        invariant
            k <= present_names@.len(),
            lv == views(local@),
            rv == views(remote@),
            strs(present_names@) == ordered(field_names(rv)),
            forall|j: int|
                0 <= j < ordered(field_names(rv)).len() ==> field_names(rv).contains(
                    #[trigger] ordered(field_names(rv))[j],
                ),
            present == ordered(field_names(rv)).map_values(
                |n: Seq<char>| present_field_op(lv, rv, n),
            ),
            views(ops@) == changes(wanted) + changes(present.take(k as int)),
        decreases present_names@.len() - k,
    {
        let name = present_names[k].as_str();
        let ghost before = ops@;
        proof {
            assert(strs(present_names@)[k as int] == name@);
            assert(field_names(rv).contains(name@));
            lemma_last_named_some::<CatalogField>(lv, name@);
            lemma_last_named_some::<CatalogField>(rv, name@);
            assert(present[k as int] == present_field_op(lv, rv, name@));
            lemma_changes_step(present, k as int);
        }
        if find_last_named(local, name).is_none() {
            let found = find_last_named(remote, name);
            let ri = found.unwrap();
            ops.push(DiffOp::Removed(remote[ri].clone()));
            assert(views(ops@) =~= views(before).push(ops@.last()@));
        }
        k = k + 1;
        assert(views(ops@) =~= changes(wanted) + changes(present.take(k as int)));
    }
    assert(present.take(k as int) =~= present);
    ops
}

proof fn lemma_changes_step(s: Seq<DiffOp<CatalogFieldView>>, i: int)
    requires
        0 <= i < s.len(),
    ensures
        changes(s.take(i + 1)) == if s[i] is Unchanged {
            changes(s.take(i))
        } else {
            changes(s.take(i)).push(s[i])
        },
{
    reveal(Seq::filter);
    assert(s.take(i + 1).drop_last() =~= s.take(i));
    assert(s.take(i + 1).last() == s[i]);
}

/// The ordered names of a list of fields are names of fields in it.
pub proof fn lemma_ordered_members(fields: Seq<CatalogFieldView>)
    ensures
        forall|j: int|
            0 <= j < ordered(field_names(fields)).len() ==> field_names(fields).contains(
                #[trigger] ordered(field_names(fields))[j],
            ),
        ordered(field_names(fields)).to_set() == field_names(fields),
        crate::order::ascending(ordered(field_names(fields))),
{
    crate::order::lemma_ordered_exists(names_of::<CatalogField>(fields));
    let o = ordered(field_names(fields));
    assert forall|j: int| 0 <= j < o.len() implies field_names(fields).contains(
        #[trigger] o[j],
    ) by {
        assert(o.to_set().contains(o[j]));
    }
}

proof fn lemma_no_changes(s: Seq<DiffOp<CatalogFieldView>>)
    ensures
        changes(s).len() == 0 <==> forall|i: int| 0 <= i < s.len() ==> #[trigger] s[i] is Unchanged,
    decreases s.len(),
{
    reveal(Seq::filter);
    if s.len() > 0 {
        let p = s.drop_last();
        lemma_no_changes(p);
        if changes(s).len() == 0 {
            assert forall|i: int| 0 <= i < s.len() implies #[trigger] s[i] is Unchanged by {
                if i < p.len() {
                    assert(p[i] == s[i]);
                }
            }
        }
        if forall|i: int| 0 <= i < s.len() ==> #[trigger] s[i] is Unchanged {
            assert forall|i: int| 0 <= i < p.len() implies #[trigger] p[i] is Unchanged by {
                assert(p[i] == s[i]);
            }
            assert(s[s.len() - 1] is Unchanged);
        }
    }
}

/// There is nothing to change exactly when both sides have the same fields,
/// the last entry of a name counting on either side.
pub proof fn lemma_no_field_ops(local: Seq<CatalogFieldView>, remote: Seq<CatalogFieldView>)
    ensures
        field_ops(local, remote).len() == 0 <==> forall|n: Seq<char>|
            #[trigger] last_named::<CatalogField>(local, n) == last_named::<CatalogField>(
                remote,
                n,
            ),
{
    let l = ordered(field_names(local));
    let r = ordered(field_names(remote));
    let wanted = l.map_values(|n: Seq<char>| wanted_field_op(local, remote, n));
    let present = r.map_values(|n: Seq<char>| present_field_op(local, remote, n));
    lemma_ordered_members(local);
    lemma_ordered_members(remote);
    lemma_no_changes(wanted);
    lemma_no_changes(present);
    if field_ops(local, remote).len() == 0 {
        assert forall|n: Seq<char>| #[trigger] last_named::<CatalogField>(local, n)
            == last_named::<CatalogField>(remote, n) by {
            lemma_last_named_some::<CatalogField>(local, n);
            lemma_last_named_some::<CatalogField>(remote, n);
            if field_names(local).contains(n) {
                assert(l.to_set().contains(n));
                let i = choose|i: int| 0 <= i < l.len() && l[i] == n;
                assert(wanted[i] is Unchanged);
            } else if field_names(remote).contains(n) {
                assert(r.to_set().contains(n));
                let i = choose|i: int| 0 <= i < r.len() && r[i] == n;
                assert(present[i] is Unchanged);
            }
        }
    }
    if forall|n: Seq<char>|
        #[trigger] last_named::<CatalogField>(local, n) == last_named::<CatalogField>(remote, n) {
        assert forall|i: int| 0 <= i < wanted.len() implies #[trigger] wanted[i] is Unchanged by {
            lemma_last_named_some::<CatalogField>(local, l[i]);
            assert(last_named::<CatalogField>(local, l[i]) == last_named::<CatalogField>(
                remote,
                l[i],
            ));
        }
        assert forall|i: int| 0 <= i < present.len() implies #[trigger] present[i] is Unchanged by {
            lemma_last_named_some::<CatalogField>(local, r[i]);
            lemma_last_named_some::<CatalogField>(remote, r[i]);
            assert(last_named::<CatalogField>(local, r[i]) == last_named::<CatalogField>(
                remote,
                r[i],
            ));
        }
    }
}

/// The order of the fields is no drift: rearranging fields of distinct names
/// leaves nothing to change.
pub proof fn field_order_is_not_drift(
    local: Seq<CatalogFieldView>,
    remote: Seq<CatalogFieldView>,
)
    requires
        names_of::<CatalogField>(local).no_duplicates(),
        names_of::<CatalogField>(remote).no_duplicates(),
        local.to_set() == remote.to_set(),
    ensures
        field_ops(local, remote).len() == 0,
{
    lemma_no_field_ops(local, remote);
    assert forall|n: Seq<char>| #[trigger] last_named::<CatalogField>(local, n) == last_named::<
        CatalogField,
    >(remote, n) by {
        lemma_distinct_lookup(local, remote, n);
        lemma_distinct_lookup(remote, local, n);
    }
}

proof fn lemma_distinct_lookup(
    a: Seq<CatalogFieldView>,
    b: Seq<CatalogFieldView>,
    n: Seq<char>,
)
    requires
        names_of::<CatalogField>(b).no_duplicates(),
        a.to_set() == b.to_set(),
    ensures
        last_named::<CatalogField>(a, n) matches Some(v) ==> last_named::<CatalogField>(b, n)
            == Some(v),
{
    lemma_last_named_some::<CatalogField>(a, n);
    if last_named::<CatalogField>(a, n) is Some {
        let v = last_named::<CatalogField>(a, n)->0;
        assert(a.to_set().contains(v));
        assert(b.to_set().contains(v));
        let k = choose|k: int| 0 <= k < b.len() && b[k] == v;
        let ns = names_of::<CatalogField>(b);
        assert forall|j: int| k < j < b.len() implies CatalogField::name_of(#[trigger] b[j])
            != CatalogField::name_of(b[k]) by {
            assert(ns[j] != ns[k]);
        }
        crate::order::lemma_last_named_at::<CatalogField>(b, k);
    }
}

/// Descriptions are no drift: whatever they are, the same fields change and
/// the catalog counts as changed on the same grounds.
pub proof fn descriptions_are_not_drift(l: CatalogView, r: CatalogView, m: CatalogView, s: CatalogView)
    requires
        l.name == m.name,
        l.fields == m.fields,
        r.fields == s.fields,
    ensures
        schema_diff(Some(l), Some(r))->0.field_diffs == schema_diff(Some(m), Some(s))->0.field_diffs,
        schema_diff(Some(l), Some(r))->0.has_changes() == schema_diff(Some(m), Some(s))->0.has_changes(),
{
}

/// A catalog compared with itself has no changes.
pub proof fn equal_catalogs_have_no_changes(c: CatalogView)
    ensures
        !schema_diff(Some(c), Some(c))->0.has_changes(),
{
    lemma_no_field_ops(c.fields, c.fields);
}

/// Additions and modifications stand before removals, so that `apply` never
/// drops a field before it has added what is wanted.
pub proof fn removals_come_last(
    local: Seq<CatalogFieldView>,
    remote: Seq<CatalogFieldView>,
    i: int,
    j: int,
)
    requires
        0 <= i < j < field_ops(local, remote).len(),
        field_ops(local, remote)[i] is Removed,
    ensures
        field_ops(local, remote)[j] is Removed,
{
    let f = |op: DiffOp<CatalogFieldView>| op !is Unchanged;
    let wanted = ordered(field_names(local)).map_values(
        |n: Seq<char>| wanted_field_op(local, remote, n),
    );
    let present = ordered(field_names(remote)).map_values(
        |n: Seq<char>| present_field_op(local, remote, n),
    );
    let a = changes(wanted);
    let b = changes(present);
    if i < a.len() {
        assert(a.contains(a[i]));
        wanted.lemma_filter_contains_rev(f, a[i]);
        let k = choose|k: int| 0 <= k < wanted.len() && wanted[k] == a[i];
        assert(wanted[k] == wanted_field_op(local, remote, ordered(field_names(local))[k]));
    } else {
        broadcast use vstd::seq_lib::group_filter_ensures;

        let m = j - a.len();
        assert(b.contains(b[m]));
        present.lemma_filter_contains_rev(f, b[m]);
        let k = choose|k: int| 0 <= k < present.len() && present[k] == b[m];
        assert(f(present.filter(f)[m]));
        assert(present[k] == present_field_op(local, remote, ordered(field_names(remote))[k]));
    }
}

/// The fields in Braze once a change has been made there.
pub open spec fn landed(
    remote: Seq<CatalogFieldView>,
    op: DiffOp<CatalogFieldView>,
) -> Seq<CatalogFieldView> {
    match op {
        DiffOp::Added(f) => remote.push(f),
        DiffOp::Removed(f) => remote.filter(|g: CatalogFieldView| g.name != f.name),
        _ => remote,
    }
}

/// The names among the given ones for which there is something to do.
spec fn changing(
    names: Seq<Seq<char>>,
    f: spec_fn(Seq<char>) -> DiffOp<CatalogFieldView>,
) -> Set<Seq<char>> {
    names.filter(|n: Seq<char>| f(n) !is Unchanged).to_set()
}

proof fn lemma_changing(
    names: Seq<Seq<char>>,
    f: spec_fn(Seq<char>) -> DiffOp<CatalogFieldView>,
)
    requires
        ascending(names),
    ensures
        changes(names.map_values(f)) == ordered(changing(names, f)).map_values(f),
        ascending(ordered(changing(names, f))),
        ordered(changing(names, f)).to_set() == changing(names, f),
        forall|n: Seq<char>| #[trigger]
            changing(names, f).contains(n) <==> names.contains(n) && f(n) !is Unchanged,
{
    let g = |n: Seq<char>| f(n) !is Unchanged;
    lemma_kept(names, f);
    lemma_ordered_unique(names.filter(g), changing(names, f));
    assert forall|n: Seq<char>| #[trigger] changing(names, f).contains(n) <==> names.contains(n)
        && f(n) !is Unchanged by {
        if names.filter(g).contains(n) {
            names.lemma_filter_contains_rev(g, n);
            names.lemma_filter_pred(g, names.filter(g).index_of(n));
        }
        if names.contains(n) && g(n) {
            names.lemma_filter_contains(g, names.index_of(n));
        }
    }
}

proof fn lemma_kept(names: Seq<Seq<char>>, f: spec_fn(Seq<char>) -> DiffOp<CatalogFieldView>)
    requires
        ascending(names),
    ensures
        changes(names.map_values(f)) == names.filter(
            |n: Seq<char>| f(n) !is Unchanged,
        ).map_values(f),
        ascending(names.filter(|n: Seq<char>| f(n) !is Unchanged)),
    decreases names.len(),
{
    reveal(Seq::filter);
    let g = |n: Seq<char>| f(n) !is Unchanged;
    let kept = names.filter(g);
    if names.len() > 0 {
        let p = names.drop_last();
        lemma_kept(p, f);
        assert(names.map_values(f).drop_last() =~= p.map_values(f));
        assert(names.map_values(f).last() == f(names.last()));
        let before = p.filter(g);
        if g(names.last()) {
            assert(kept == before.push(names.last()));
            assert(kept.map_values(f) =~= before.map_values(f).push(f(names.last())));
            assert forall|i: int, j: int| 0 <= i < j < kept.len() implies text_lt(
                #[trigger] kept[i],
                #[trigger] kept[j],
            ) by {
                assert(before.contains(kept[i]));
                p.lemma_filter_contains_rev(g, kept[i]);
                let k = choose|k: int| 0 <= k < p.len() && p[k] == kept[i];
                assert(names[k] == kept[i]);
                if j < before.len() {
                    assert(before[i] == kept[i] && before[j] == kept[j]);
                }
            }
        }
    } else {
        assert(changes(names.map_values(f)) =~= kept.map_values(f));
    }
}

proof fn lemma_ordered_remove(s: Set<Seq<char>>, i: int)
    requires
        ascending(ordered(s)),
        ordered(s).to_set() == s,
        0 <= i < ordered(s).len(),
    ensures
        ordered(s.remove(ordered(s)[i])) == ordered(s).remove(i),
{
    let o = ordered(s);
    let r = o.remove(i);
    assert(ascending(r));
    assert forall|n: Seq<char>| r.to_set().contains(n) == s.remove(o[i]).contains(n) by {
        if r.contains(n) {
            let k = r.index_of(n);
            let m = if k < i {
                k
            } else {
                k + 1
            };
            assert(o[m] == n);
            assert(o.to_set().contains(n));
            if m < i {
                crate::text::lemma_text_lt_irreflexive(n);
            } else {
                crate::text::lemma_text_lt_irreflexive(n);
            }
        }
        if s.contains(n) && n != o[i] {
            assert(o.to_set().contains(n));
            let m = o.index_of(n);
            let k = if m < i {
                m
            } else {
                m - 1
            };
            assert(r[k] == n);
        }
    }
    assert(r.to_set() =~= s.remove(o[i]));
    lemma_ordered_unique(r, s.remove(o[i]));
}

proof fn lemma_landed_lookup(
    remote: Seq<CatalogFieldView>,
    op: DiffOp<CatalogFieldView>,
    n: Seq<char>,
)
    ensures
        last_named::<CatalogField>(landed(remote, op), n) == match op {
            DiffOp::Added(f) => if f.name == n {
                Some(f)
            } else {
                last_named::<CatalogField>(remote, n)
            },
            DiffOp::Removed(f) => if f.name == n {
                None
            } else {
                last_named::<CatalogField>(remote, n)
            },
            _ => last_named::<CatalogField>(remote, n),
        },
    decreases remote.len(),
{
    match op {
        DiffOp::Added(f) => {
            assert(remote.push(f).drop_last() =~= remote);
        },
        DiffOp::Removed(f) => {
            reveal(Seq::filter);
            if remote.len() > 0 {
                lemma_landed_lookup(remote.drop_last(), op, n);
                let g = |x: CatalogFieldView| x.name != f.name;
                let before = remote.drop_last().filter(g);
                if g(remote.last()) {
                    assert(before.push(remote.last()).drop_last() =~= before);
                }
            }
        },
        _ => {},
    }
}

/// A change to a field that has been made is no longer asked for, and every
/// other change still is: a run that stopped half way goes on where it
/// stopped. Changes of a type are left out, for they are never made.
pub proof fn landed_field_write_is_skipped(
    local: Seq<CatalogFieldView>,
    remote: Seq<CatalogFieldView>,
    k: int,
)
    requires
        0 <= k < field_ops(local, remote).len(),
        field_ops(local, remote)[k] !is Modified,
    ensures
        field_ops(local, landed(remote, field_ops(local, remote)[k])) == field_ops(
            local,
            remote,
        ).remove(k),
{
    let op = field_ops(local, remote)[k];
    let after = landed(remote, op);
    let w = |n: Seq<char>| wanted_field_op(local, remote, n);
    let w2 = |n: Seq<char>| wanted_field_op(local, after, n);
    let p = |n: Seq<char>| present_field_op(local, remote, n);
    let p2 = |n: Seq<char>| present_field_op(local, after, n);
    let l = ordered(field_names(local));
    let r = ordered(field_names(remote));
    let r2 = ordered(field_names(after));
    lemma_ordered_members(local);
    lemma_ordered_members(remote);
    lemma_ordered_members(after);
    lemma_changing(l, w);
    lemma_changing(l, w2);
    lemma_changing(r, p);
    lemma_changing(r2, p2);
    let cw = changing(l, w);
    let cp = changing(r, p);
    assert forall|n: Seq<char>| l.contains(n) == field_names(local).contains(n) by {
        assert(l.to_set().contains(n) == l.contains(n));
    }
    assert forall|n: Seq<char>| r.contains(n) == field_names(remote).contains(n) by {
        assert(r.to_set().contains(n) == r.contains(n));
    }
    assert forall|n: Seq<char>| r2.contains(n) == field_names(after).contains(n) by {
        assert(r2.to_set().contains(n) == r2.contains(n));
    }
    assert forall|n: Seq<char>|
        #![trigger last_named::<CatalogField>(after, n)]
        (field_names(after).contains(n) <==> last_named::<CatalogField>(after, n) is Some) && (
        field_names(remote).contains(n) <==> last_named::<CatalogField>(remote, n) is Some) by {
        lemma_last_named_some::<CatalogField>(after, n);
        lemma_last_named_some::<CatalogField>(remote, n);
    }
    let a = ordered(cw);
    let b = ordered(cp);
    assert(field_ops(local, remote) == a.map_values(w) + b.map_values(p));
    if k < a.len() {
        let x = a[k];
        assert(op == w(x));
        assert(a.to_set().contains(x));
        lemma_last_named_some::<CatalogField>(local, x);
        assert(op is Added && op->Added_0.name == x);
        assert forall|n: Seq<char>| changing(l, w2).contains(n) == cw.remove(x).contains(n) by {
            lemma_landed_lookup(remote, op, n);
        }
        assert(changing(l, w2) =~= cw.remove(x));
        assert forall|n: Seq<char>| changing(r2, p2).contains(n) == cp.contains(n) by {
            lemma_landed_lookup(remote, op, n);
        }
        assert(changing(r2, p2) =~= cp);
        lemma_ordered_remove(cw, k);
        assert forall|i: int| 0 <= i < a.remove(k).len() implies w2(#[trigger] a.remove(k)[i])
            == w(a.remove(k)[i]) by {
            let n = a.remove(k)[i];
            lemma_landed_lookup(remote, op, n);
            assert(n != x) by {
                crate::text::lemma_text_lt_irreflexive(x);
            }
        }
        assert forall|i: int| 0 <= i < b.len() implies p2(#[trigger] b[i]) == p(b[i]) by {
            lemma_landed_lookup(remote, op, b[i]);
            assert(b.to_set().contains(b[i]));
        }
        assert(a.remove(k).map_values(w2) =~= a.map_values(w).remove(k));
        assert(b.map_values(p2) =~= b.map_values(p));
        assert(field_ops(local, after) == a.remove(k).map_values(w2) + b.map_values(p2));
    } else {
        let x = b[k - a.len()];
        assert(op == p(x));
        assert(b.to_set().contains(x));
        lemma_last_named_some::<CatalogField>(remote, x);
        assert(op is Removed && op->Removed_0.name == x);
        assert forall|n: Seq<char>| changing(l, w2).contains(n) == cw.contains(n) by {
            lemma_landed_lookup(remote, op, n);
        }
        assert(changing(l, w2) =~= cw);
        assert forall|n: Seq<char>| changing(r2, p2).contains(n) == cp.remove(x).contains(n) by {
            lemma_landed_lookup(remote, op, n);
        }
        assert(changing(r2, p2) =~= cp.remove(x));
        lemma_ordered_remove(cp, k - a.len());
        let b2 = b.remove(k - a.len());
        assert forall|i: int| 0 <= i < a.len() implies w2(#[trigger] a[i]) == w(a[i]) by {
            lemma_landed_lookup(remote, op, a[i]);
            assert(a.to_set().contains(a[i]));
        }
        assert forall|i: int| 0 <= i < b2.len() implies p2(#[trigger] b2[i]) == p(b2[i]) by {
            lemma_landed_lookup(remote, op, b2[i]);
            assert(b2[i] != x) by {
                crate::text::lemma_text_lt_irreflexive(x);
            }
        }
        assert(a.map_values(w2) =~= a.map_values(w));
        assert(b2.map_values(p2) =~= b.map_values(p).remove(k - a.len()));
        assert(field_ops(local, after) == a.map_values(w2) + b2.map_values(p2));
    }
    assert(field_ops(local, after) =~= field_ops(local, remote).remove(k));
}

/// What comparing two catalogs gives: a catalog on one side only is created or
/// deleted as a whole, and one on both sides goes from what Braze has to what
/// Git has where their fields differ.
pub proof fn schema_diff_follows_the_sides(l: CatalogView, r: CatalogView)
    ensures
        schema_diff(None, None) is None,
        schema_diff(Some(l), None) matches Some(d) && d.name == l.name && d.op == DiffOp::Added(l)
            && d.field_diffs.len() == l.fields.len() && forall|i: int|
            0 <= i < l.fields.len() ==> #[trigger] d.field_diffs[i] == DiffOp::Added(l.fields[i]),
        schema_diff(None, Some(r)) matches Some(d) && d.name == r.name && d.op
            == DiffOp::Removed(r) && d.field_diffs.len() == 0,
        schema_diff(Some(l), Some(r)) matches Some(d) && d.name == l.name && d.field_diffs
            == field_ops(l.fields, r.fields) && (d.op is Unchanged <==> forall|n: Seq<char>|
            #[trigger]
            last_named::<CatalogField>(l.fields, n) == last_named::<CatalogField>(r.fields, n))
            && (d.op !is Unchanged ==> d.op == (DiffOp::Modified { from: r, to: l })),
{
    lemma_no_field_ops(l.fields, r.fields);
}

/// Filtering keeps exactly the changes.
proof fn lemma_change_kept(
    names: Seq<Seq<char>>,
    f: spec_fn(Seq<char>) -> DiffOp<CatalogFieldView>,
    op: DiffOp<CatalogFieldView>,
)
    ensures
        changes(names.map_values(f)).contains(op) <==> op !is Unchanged && exists|i: int|
            0 <= i < names.len() && f(#[trigger] names[i]) == op,
{
    broadcast use vstd::seq_lib::group_filter_ensures;

    let all = names.map_values(f);
    let g = |op: DiffOp<CatalogFieldView>| op !is Unchanged;
    let kept = changes(all);
    if kept.contains(op) {
        all.lemma_filter_contains_rev(g, op);
        let k = choose|k: int| 0 <= k < kept.len() && kept[k] == op;
        assert(g(kept[k]));
        let i = choose|i: int| 0 <= i < all.len() && all[i] == op;
        assert(f(names[i]) == op);
    }
    if op !is Unchanged && exists|i: int| 0 <= i < names.len() && f(#[trigger] names[i]) == op {
        let i = choose|i: int| 0 <= i < names.len() && f(#[trigger] names[i]) == op;
        assert(all[i] == op);
        assert(g(all[i]));
        assert(kept.contains(all[i]));
    }
}

/// The changes to the fields are exactly those that are needed: a field that
/// only Git has is added, one that only Braze has is removed, and one whose
/// type differs goes from the type in Braze to the type in Git. Where a name
/// is repeated the last entry counts.
pub proof fn field_changes_are_those_needed(
    local: Seq<CatalogFieldView>,
    remote: Seq<CatalogFieldView>,
    op: DiffOp<CatalogFieldView>,
)
    ensures
        field_ops(local, remote).contains(op) <==> match op {
            DiffOp::Added(f) => last_named::<CatalogField>(local, f.name) == Some(f)
                && last_named::<CatalogField>(remote, f.name) is None,
            DiffOp::Removed(f) => last_named::<CatalogField>(remote, f.name) == Some(f)
                && last_named::<CatalogField>(local, f.name) is None,
            DiffOp::Modified { from, to } => from.name == to.name && from != to && last_named::<
                CatalogField,
            >(remote, from.name) == Some(from) && last_named::<CatalogField>(local, to.name)
                == Some(to),
            DiffOp::Unchanged => false,
        },
{
    let ln = ordered(field_names(local));
    let rn = ordered(field_names(remote));
    let f = |n: Seq<char>| wanted_field_op(local, remote, n);
    let g = |n: Seq<char>| present_field_op(local, remote, n);
    lemma_ordered_members(local);
    lemma_ordered_members(remote);
    lemma_change_kept(ln, f, op);
    lemma_change_kept(rn, g, op);
    let a = changes(ln.map_values(f));
    let b = changes(rn.map_values(g));
    assert(field_ops(local, remote) == a + b);
    assert((a + b).contains(op) <==> a.contains(op) || b.contains(op)) by {
        if a.contains(op) {
            let i = choose|i: int| 0 <= i < a.len() && a[i] == op;
            assert((a + b)[i] == op);
        }
        if b.contains(op) {
            let i = choose|i: int| 0 <= i < b.len() && b[i] == op;
            assert((a + b)[a.len() + i] == op);
        }
    }
    let name = match op {
        DiffOp::Added(x) => x.name,
        DiffOp::Removed(x) => x.name,
        DiffOp::Modified { from, to } => to.name,
        DiffOp::Unchanged => Seq::empty(),
    };
    lemma_last_named_some::<CatalogField>(local, name);
    lemma_last_named_some::<CatalogField>(remote, name);
    if a.contains(op) {
        let i = choose|i: int| 0 <= i < ln.len() && f(#[trigger] ln[i]) == op;
        lemma_last_named_some::<CatalogField>(local, ln[i]);
        lemma_last_named_some::<CatalogField>(remote, ln[i]);
        assert(field_names(local).contains(ln[i]));
    }
    if b.contains(op) {
        let i = choose|i: int| 0 <= i < rn.len() && g(#[trigger] rn[i]) == op;
        lemma_last_named_some::<CatalogField>(local, rn[i]);
        lemma_last_named_some::<CatalogField>(remote, rn[i]);
        assert(field_names(remote).contains(rn[i]));
    }
    if op !is Unchanged {
        if names_of::<CatalogField>(local).contains(name) {
            assert(ln.to_set().contains(name));
            let i = choose|i: int| 0 <= i < ln.len() && ln[i] == name;
            assert(f(ln[i]) == wanted_field_op(local, remote, name));
        }
        if names_of::<CatalogField>(remote).contains(name) {
            assert(rn.to_set().contains(name));
            let i = choose|i: int| 0 <= i < rn.len() && rn[i] == name;
            assert(g(rn[i]) == present_field_op(local, remote, name));
        }
    }
}

} // verus!
