//! Catalog rows diff.
//!
//! Rows are told apart by the hashes of their contents. Rows are data, not
//! configuration: no command compares them, and nothing writes them.

use crate::order::{
    find_last_named, insert_name, insert_names, last_named, lemma_last_named_some,
    lemma_ordered_unique, lemma_push_to_set, names_of, ordered, views, Named,
};
use crate::resource::catalog_items::{CatalogItemsView, ItemHash, ItemHashView};
use crate::resource::{Catalog, CatalogItems};
use crate::text::{owned, strs};
use vstd::prelude::*;

verus! {

#[derive(Debug, Clone, PartialEq, Eq)]
pub struct CatalogItemsDiff {
    pub catalog_name: String,
    pub added_ids: Vec<String>,
    pub modified_ids: Vec<String>,
    pub removed_ids: Vec<String>,
    pub unchanged_count: usize,
}

/// What a diff of rows is.
#[verifier::ext_equal]
pub struct CatalogItemsDiffView {
    pub catalog_name: Seq<char>,
    pub added_ids: Seq<Seq<char>>,
    pub modified_ids: Seq<Seq<char>>,
    pub removed_ids: Seq<Seq<char>>,
    pub unchanged_count: nat,
}

impl View for CatalogItemsDiff {
    type V = CatalogItemsDiffView;

    open spec fn view(&self) -> CatalogItemsDiffView {
        CatalogItemsDiffView {
            catalog_name: self.catalog_name@,
            added_ids: strs(self.added_ids@),
            modified_ids: strs(self.modified_ids@),
            removed_ids: strs(self.removed_ids@),
            unchanged_count: self.unchanged_count as nat,
        }
    }
}

impl CatalogItemsDiffView {
    pub open spec fn has_changes(self) -> bool {
        self.added_ids.len() > 0 || self.modified_ids.len() > 0 || self.removed_ids.len() > 0
    }
}

impl CatalogItemsDiff {
    pub fn has_changes(&self) -> (r: bool)
        ensures
            r == self@.has_changes(),
    {
        self.added_ids.len() > 0 || self.modified_ids.len() > 0 || self.removed_ids.len() > 0
    }
}

/// What became of a row.
#[derive(Debug, Clone, Copy, PartialEq, Eq, Structural)]
pub enum RowChange {
    Added,
    Modified,
    Removed,
    Unchanged,
}

/// What became of the row with an id. Where an id is repeated on a side the
/// last row counts.
pub open spec fn row_change(
    local: Seq<ItemHashView>,
    remote: Seq<ItemHashView>,
    id: Seq<char>,
) -> RowChange {
    match (last_named::<ItemHash>(local, id), last_named::<ItemHash>(remote, id)) {
        (Some(l), Some(r)) => if l.hash == r.hash {
            RowChange::Unchanged
        } else {
            RowChange::Modified
        },
        (Some(_), None) => RowChange::Added,
        (None, _) => RowChange::Removed,
    }
}

/// The ids on either side, in ascending order.
pub open spec fn all_ids(local: Seq<ItemHashView>, remote: Seq<ItemHashView>) -> Seq<Seq<char>> {
    ordered(names_of::<ItemHash>(local).to_set().union(names_of::<ItemHash>(remote).to_set()))
}

/// The ids among `ids` of the rows with a certain change.
pub open spec fn ids_with(
    ids: Seq<Seq<char>>,
    local: Seq<ItemHashView>,
    remote: Seq<ItemHashView>,
    change: RowChange,
) -> Seq<Seq<char>> {
    ids.filter(|id: Seq<char>| row_change(local, remote, id) == change)
}

/// What comparing the rows of a catalog gives.
pub open spec fn items_diff(
    name: Seq<char>,
    local: Seq<ItemHashView>,
    remote: Seq<ItemHashView>,
) -> CatalogItemsDiffView {
    let ids = all_ids(local, remote);
    CatalogItemsDiffView {
        catalog_name: name,
        added_ids: ids_with(ids, local, remote, RowChange::Added),
        modified_ids: ids_with(ids, local, remote, RowChange::Modified),
        removed_ids: ids_with(ids, local, remote, RowChange::Removed),
        unchanged_count: ids_with(ids, local, remote, RowChange::Unchanged).len(),
    }
}

fn change_of(local: &Vec<ItemHash>, remote: &Vec<ItemHash>, id: &str) -> (r: RowChange)
    ensures
        r == row_change(views(local@), views(remote@), id@),
{
    match (find_last_named(local, id), find_last_named(remote, id)) {
        (Some(l), Some(r)) => if local[l].hash == remote[r].hash {
            RowChange::Unchanged
        } else {
            RowChange::Modified
        },
        (Some(_), None) => RowChange::Added,
        (None, _) => RowChange::Removed,
    }
}

/// Compares the rows of a catalog by their hashes, in order of id.
pub fn diff_items(name: &str, local: &Vec<ItemHash>, remote: &Vec<ItemHash>) -> (r:
    CatalogItemsDiff)
    ensures
        r@ == items_diff(name@, views(local@), views(remote@)),
{
    let ghost lv = views(local@);
    let ghost rv = views(remote@);
    let mut ids: Vec<String> = Vec::new();
    assert(strs(ids@) =~= Seq::empty());
    insert_names(&mut ids, local);
    insert_names(&mut ids, remote);
    let ghost all = strs(ids@);
    proof {
        let s = names_of::<ItemHash>(lv).to_set().union(names_of::<ItemHash>(rv).to_set());
        assert(all.to_set() =~= s);
        lemma_ordered_unique(all, s);
    }
    let mut added: Vec<String> = Vec::new();
    let mut modified: Vec<String> = Vec::new();
    let mut removed: Vec<String> = Vec::new();
    let mut unchanged: usize = 0;
    let mut i: usize = 0;
    proof {
        reveal(Seq::filter);
        assert(strs(added@) =~= Seq::empty());
        assert(strs(modified@) =~= Seq::empty());
        assert(strs(removed@) =~= Seq::empty());
    }
    while i < ids.len()
        invariant
            i <= ids@.len(),
            all == strs(ids@),
            lv == views(local@),
            rv == views(remote@),
            strs(added@) == ids_with(all.take(i as int), lv, rv, RowChange::Added),
            strs(modified@) == ids_with(all.take(i as int), lv, rv, RowChange::Modified),
            strs(removed@) == ids_with(all.take(i as int), lv, rv, RowChange::Removed),
            unchanged == ids_with(all.take(i as int), lv, rv, RowChange::Unchanged).len(),
            unchanged <= i,
        decreases ids@.len() - i,
    {
        let ghost id = ids@[i as int]@;
        proof {
            reveal(Seq::filter);
            assert(all.take(i + 1).drop_last() =~= all.take(i as int));
            assert(all.take(i + 1).last() == id);
        }
        match change_of(local, remote, ids[i].as_str()) {
            RowChange::Added => {
                let ghost before = strs(added@);
                added.push(ids[i].clone());
                assert(strs(added@) =~= before.push(id));
            },
            RowChange::Modified => {
                let ghost before = strs(modified@);
                modified.push(ids[i].clone());
                assert(strs(modified@) =~= before.push(id));
            },
            RowChange::Removed => {
                let ghost before = strs(removed@);
                removed.push(ids[i].clone());
                assert(strs(removed@) =~= before.push(id));
            },
            RowChange::Unchanged => {
                unchanged = unchanged + 1;
            },
        }
        i = i + 1;
    }
    assert(all.take(i as int) =~= all);
    CatalogItemsDiff {
        catalog_name: owned(name),
        added_ids: added,
        modified_ids: modified,
        removed_ids: removed,
        unchanged_count: unchanged,
    }
}

/// The catalogs to look at: the one that was asked for, or all that Braze
/// lists.
pub fn resolve_catalog_names(wanted: Option<&str>, listed: &Vec<Catalog>) -> (r: Vec<String>)
    ensures
        strs(r@) == match wanted {
            Some(name) => seq![name@],
            None => names_of::<Catalog>(views(listed@)),
        },
{
    let mut out: Vec<String> = Vec::new();
    match wanted {
        Some(name) => {
            out.push(owned(name));
            assert(strs(out@) =~= seq![name@]);
        },
        None => {
            let mut i: usize = 0;
            while i < listed.len()
                invariant
                    i <= listed@.len(),
                    out@.len() == i,
                    forall|k: int| 0 <= k < i ==> (#[trigger] out@[k])@ == listed@[k].name@,
                decreases listed@.len() - i,
            {
                out.push(listed[i].name.clone());
                i = i + 1;
            }
            assert(strs(out@) =~= names_of::<Catalog>(views(listed@)));
        },
    }
    out
}

/// The hashes of the rows of a catalog in Braze; none where Braze does not
/// have the catalog.
#[derive(Debug)]
pub struct RemoteRows {
    pub name: String,
    pub hashes: Option<Vec<ItemHash>>,
}

/// What the hashes of a catalog are.
#[verifier::ext_equal]
pub struct RemoteRowsView {
    pub name: Seq<char>,
    pub hashes: Seq<ItemHashView>,
}

impl View for RemoteRows {
    type V = RemoteRowsView;

    open spec fn view(&self) -> RemoteRowsView {
        RemoteRowsView {
            name: self.name@,
            hashes: match self.hashes {
                Some(h) => views(h@),
                None => Seq::empty(),
            },
        }
    }
}

impl Named for RemoteRows {
    open spec fn name_of(v: RemoteRowsView) -> Seq<char> {
        v.name
    }

    fn name_ref(&self) -> (r: &String) {
        &self.name
    }
}

/// The rows of both sides of a catalog, compared.
pub open spec fn catalog_rows_diff(
    local: Seq<CatalogItemsView>,
    fetched: Seq<RemoteRowsView>,
    name: Seq<char>,
) -> CatalogItemsDiffView {
    items_diff(
        name,
        match last_named::<CatalogItems>(local, name) {
            Some(c) => c.item_hashes,
            None => Seq::empty(),
        },
        match last_named::<RemoteRows>(fetched, name) {
            Some(c) => c.hashes,
            None => Seq::empty(),
        },
    )
}

/// Compares the rows of all catalogs that either side knows, in order of
/// name, and keeps those that differ.
pub fn compute_catalog_items_diffs(
    local: &Vec<CatalogItems>,
    names: &Vec<String>,
    fetched: &Vec<RemoteRows>,
) -> (r: Vec<CatalogItemsDiff>)
    ensures
        views(r@) == ordered(
            names_of::<CatalogItems>(views(local@)).to_set().union(strs(names@).to_set()),
        ).map_values(
            |n: Seq<char>| catalog_rows_diff(views(local@), views(fetched@), n),
        ).filter(|d: CatalogItemsDiffView| d.has_changes()),
{
    let ghost lv = views(local@);
    let ghost fv = views(fetched@);
    let ghost asked = strs(names@);
    let ghost ls = names_of::<CatalogItems>(lv).to_set();
    let mut all: Vec<String> = Vec::new();
    assert(strs(all@) =~= Seq::empty());
    insert_names(&mut all, local);
    assert(strs(all@).to_set() =~= ls);
    let mut k: usize = 0;
    assert(ls.union(asked.take(0).to_set()) =~= ls);
    while k < names.len()
        invariant
            k <= names@.len(),
            asked == strs(names@),
            crate::order::ascending(strs(all@)),
            strs(all@).to_set() == ls.union(asked.take(k as int).to_set()),
        decreases names@.len() - k,
    {
        insert_name(&mut all, names[k].as_str());
        proof {
            let t = asked.take(k as int);
            assert(asked.take(k + 1) =~= t.push(asked[k as int]));
            lemma_push_to_set(t, asked[k as int]);
            assert(ls.union(asked.take(k + 1).to_set()) =~= ls.union(t.to_set()).insert(
                asked[k as int],
            ));
        }
        k = k + 1;
    }
    assert(asked.take(k as int) =~= asked);
    proof {
        lemma_ordered_unique(strs(all@), ls.union(asked.to_set()));
    }
    let ghost make = |n: Seq<char>| catalog_rows_diff(lv, fv, n);
    let ghost keep = |d: CatalogItemsDiffView| d.has_changes();
    let ghost every = strs(all@).map_values(make);
    let empty: Vec<ItemHash> = Vec::new();
    let mut out: Vec<CatalogItemsDiff> = Vec::new();
    let mut i: usize = 0;
    proof {
        reveal(Seq::filter);
        assert(views(empty@) =~= Seq::empty());
        assert(views(out@) =~= Seq::empty());
    }
    while i < all.len()
        invariant
            i <= all@.len(),
            lv == views(local@),
            fv == views(fetched@),
            make == (|n: Seq<char>| catalog_rows_diff(lv, fv, n)),
            keep == (|d: CatalogItemsDiffView| d.has_changes()),
            every == strs(all@).map_values(make),
            views(empty@) == Seq::<ItemHashView>::empty(),
            views(out@) == every.take(i as int).filter(keep),
        decreases all@.len() - i,
    {
        let name = all[i].as_str();
        let l = match find_last_named(local, name) {
            Some(j) => &local[j].item_hashes,
            None => &empty,
        };
        let r = match find_last_named(fetched, name) {
            Some(j) => match &fetched[j].hashes {
                Some(h) => h,
                None => &empty,
            },
            None => &empty,
        };
        let d = diff_items(name, l, r);
        let ghost before = views(out@);
        proof {
            reveal(Seq::filter);
            assert(strs(all@)[i as int] == name@);
            assert(every[i as int] == catalog_rows_diff(lv, fv, name@));
            assert(every.take(i + 1).drop_last() =~= every.take(i as int));
            assert(every.take(i + 1).last() == d@);
        }
        if d.has_changes() {
            let ghost dv = d@;
            out.push(d);
            assert(views(out@) =~= before.push(dv));
        }
        i = i + 1;
    }
    assert(every.take(i as int) =~= every);
    out
}

/// A catalog whose rows have the same hashes on both sides has no changes.
pub proof fn same_rows_have_no_changes(name: Seq<char>, rows: Seq<ItemHashView>)
    ensures
        !items_diff(name, rows, rows).has_changes(),
{
    let ids = all_ids(rows, rows);
    let s = names_of::<ItemHash>(rows).to_set();
    assert(s.union(s) =~= s);
    crate::order::lemma_ordered_exists(names_of::<ItemHash>(rows));
    assert forall|id: Seq<char>| ids.contains(id) implies row_change(rows, rows, id)
        is Unchanged by {
        assert(ids.to_set().contains(id));
        lemma_last_named_some::<ItemHash>(rows, id);
    }
    lemma_none_with(ids, rows, RowChange::Added);
    lemma_none_with(ids, rows, RowChange::Modified);
    lemma_none_with(ids, rows, RowChange::Removed);
}

proof fn lemma_none_with(ids: Seq<Seq<char>>, rows: Seq<ItemHashView>, change: RowChange)
    requires
        change !is Unchanged,
        forall|id: Seq<char>| ids.contains(id) ==> row_change(rows, rows, id) is Unchanged,
    ensures
        ids_with(ids, rows, rows, change).len() == 0,
{
    let f = |id: Seq<char>| row_change(rows, rows, id) == change;
    let found = ids.filter(f);
    if found.len() > 0 {
        let id = found[0];
        assert(found.contains(id));
        ids.lemma_filter_contains_rev(f, id);
        ids.lemma_filter_pred(f, 0);
    }
}

/// A row is reported according to the sides it is on: added where only Git
/// has it, removed where only Braze has it, and modified where both have it
/// with different contents. Any other row is not listed.
pub proof fn row_report_follows_the_sides(
    name: Seq<char>,
    local: Seq<ItemHashView>,
    remote: Seq<ItemHashView>,
    id: Seq<char>,
)
    ensures
        items_diff(name, local, remote).catalog_name == name,
        items_diff(name, local, remote).added_ids.contains(id) <==> names_of::<ItemHash>(
            local,
        ).contains(id) && !names_of::<ItemHash>(remote).contains(id),
        items_diff(name, local, remote).removed_ids.contains(id) <==> names_of::<ItemHash>(
            remote,
        ).contains(id) && !names_of::<ItemHash>(local).contains(id),
        items_diff(name, local, remote).modified_ids.contains(id) <==> names_of::<ItemHash>(
            local,
        ).contains(id) && names_of::<ItemHash>(remote).contains(id) && last_named::<ItemHash>(
            local,
            id,
        )->0.hash != last_named::<ItemHash>(remote, id)->0.hash,
{
    let ids = all_ids(local, remote);
    lemma_ids_listed(local, remote, id);
    lemma_last_named_some::<ItemHash>(local, id);
    lemma_last_named_some::<ItemHash>(remote, id);
    lemma_ids_with(ids, local, remote, RowChange::Added, id);
    lemma_ids_with(ids, local, remote, RowChange::Modified, id);
    lemma_ids_with(ids, local, remote, RowChange::Removed, id);
}

proof fn lemma_ids_listed(local: Seq<ItemHashView>, remote: Seq<ItemHashView>, id: Seq<char>)
    ensures
        all_ids(local, remote).contains(id) <==> names_of::<ItemHash>(local).contains(id)
            || names_of::<ItemHash>(remote).contains(id),
{
    let x = names_of::<ItemHash>(local);
    let y = names_of::<ItemHash>(remote);
    let s = x + y;
    let o = all_ids(local, remote);
    assert forall|n: Seq<char>| s.contains(n) <==> x.contains(n) || y.contains(n) by {
        if x.contains(n) {
            let i = choose|i: int| 0 <= i < x.len() && x[i] == n;
            assert(s[i] == n);
        }
        if y.contains(n) {
            let i = choose|i: int| 0 <= i < y.len() && y[i] == n;
            assert(s[x.len() + i] == n);
        }
    }
    assert(s.to_set() =~= x.to_set().union(y.to_set()));
    crate::order::lemma_ordered_exists(s);
    assert(o.contains(id) <==> o.to_set().contains(id));
}

proof fn lemma_ids_with(
    ids: Seq<Seq<char>>,
    local: Seq<ItemHashView>,
    remote: Seq<ItemHashView>,
    change: RowChange,
    id: Seq<char>,
)
    ensures
        ids_with(ids, local, remote, change).contains(id) <==> ids.contains(id) && row_change(
            local,
            remote,
            id,
        ) == change,
{
    let f = |id: Seq<char>| row_change(local, remote, id) == change;
    let found = ids.filter(f);
    if found.contains(id) {
        ids.lemma_filter_contains_rev(f, id);
        let i = choose|i: int| 0 <= i < found.len() && found[i] == id;
        ids.lemma_filter_pred(f, i);
    }
    if ids.contains(id) && f(id) {
        let i = choose|i: int| 0 <= i < ids.len() && ids[i] == id;
        ids.lemma_filter_contains(f, i);
    }
}

/// Every row of either side is counted once: as added, modified, removed or
/// unchanged.
pub proof fn every_row_is_counted_once(
    name: Seq<char>,
    local: Seq<ItemHashView>,
    remote: Seq<ItemHashView>,
)
    ensures
        ({
            let d = items_diff(name, local, remote);
            d.added_ids.len() + d.modified_ids.len() + d.removed_ids.len() + d.unchanged_count
        }) == all_ids(local, remote).len(),
{
    lemma_rows_parted(all_ids(local, remote), local, remote);
}

proof fn lemma_rows_parted(
    ids: Seq<Seq<char>>,
    local: Seq<ItemHashView>,
    remote: Seq<ItemHashView>,
)
    ensures
        ids_with(ids, local, remote, RowChange::Added).len() + ids_with(
            ids,
            local,
            remote,
            RowChange::Modified,
        ).len() + ids_with(ids, local, remote, RowChange::Removed).len() + ids_with(
            ids,
            local,
            remote,
            RowChange::Unchanged,
        ).len() == ids.len(),
    decreases ids.len(),
{
    reveal(Seq::filter);
    if ids.len() > 0 {
        lemma_rows_parted(ids.drop_last(), local, remote);
    }
}

/// The rows of a catalog are compared with those of the catalog of the same
/// name in Braze. Where Braze does not have it every row is added, and where
/// Git does not every row is removed.
pub proof fn rows_are_compared_by_catalog(
    local: Seq<CatalogItemsView>,
    fetched: Seq<RemoteRowsView>,
    name: Seq<char>,
    l: CatalogItemsView,
    r: RemoteRowsView,
)
    ensures
        catalog_rows_diff(local, fetched, name).catalog_name == name,
        last_named::<CatalogItems>(local, name) == Some(l) && last_named::<RemoteRows>(
            fetched,
            name,
        ) == Some(r) ==> catalog_rows_diff(local, fetched, name) == items_diff(
            name,
            l.item_hashes,
            r.hashes,
        ),
        !names_of::<RemoteRows>(fetched).contains(name) ==> catalog_rows_diff(
            local,
            fetched,
            name,
        ).removed_ids.len() == 0,
        !names_of::<CatalogItems>(local).contains(name) ==> catalog_rows_diff(
            local,
            fetched,
            name,
        ).added_ids.len() == 0,
{
    lemma_last_named_some::<CatalogItems>(local, name);
    lemma_last_named_some::<RemoteRows>(fetched, name);
    let d = catalog_rows_diff(local, fetched, name);
    let e = Seq::<ItemHashView>::empty();
    let ls = match last_named::<CatalogItems>(local, name) {
        Some(c) => c.item_hashes,
        None => e,
    };
    let rs = match last_named::<RemoteRows>(fetched, name) {
        Some(c) => c.hashes,
        None => e,
    };
    assert(names_of::<ItemHash>(e) =~= Seq::empty());
    if !names_of::<RemoteRows>(fetched).contains(name) && d.removed_ids.len() > 0 {
        row_report_follows_the_sides(name, ls, rs, d.removed_ids[0]);
        assert(d.removed_ids.contains(d.removed_ids[0]));
    }
    if !names_of::<CatalogItems>(local).contains(name) && d.added_ids.len() > 0 {
        row_report_follows_the_sides(name, ls, rs, d.added_ids[0]);
        assert(d.added_ids.contains(d.added_ids[0]));
    }
}

} // verus!
