//! The reconciler: brings the store in line with a walk of the vault.
//!
//! A full sync is planned from the walk and the store, the caller reads the
//! documents that need indexing, and the plan is then applied: each document
//! that could be read is indexed, and the documents that are gone from the
//! vault are deleted in one batch.
use vstd::prelude::*;
use crate::db::{
    docs_without, edges_without, indexed_edges, removed_count, string_views, Database, DocMeta,
    Edge,
};
use crate::file_index::{
    indexable, is_indexable, resolved, FileIndex, IndexError, VaultListing,
    WalkEntry,
};
use crate::text::opt_view;
use crate::wikilink::{extract, extract_wikilinks, links_view, LinkRef};

verus! {

/// The documents and edges of a store, as plain values.
pub type StoreModel = (Map<Seq<char>, DocMeta>, Set<Edge>);

/// What a full sync did.
pub struct IndexStats {
    pub files_indexed: usize,
    pub files_deleted: usize,
    pub files_skipped: usize,
    /// Documents that needed indexing but could not be read.
    pub files_failed: usize,
    pub duration_ms: u128,
}

/// The work of one full sync, worked out from a walk and the store.
pub struct SyncPlan {
    /// Positions, in the walk, of the documents to index, in walk order.
    pub to_index: Vec<usize>,
    /// How many documents are unchanged since they were indexed.
    pub files_skipped: usize,
    /// Documents of the store that the walk no longer finds.
    pub to_delete: Vec<String>,
}

/// Runs full syncs of a vault against a store.
pub struct VaultIndexer;

/// A walked document needs indexing when the store does not have it, or has
/// it with an older modification time.
pub open spec fn needs_index(docs: Map<Seq<char>, DocMeta>, e: WalkEntry) -> bool {
    !docs.contains_key(e.path@) || e.modified > docs[e.path@].modified_at
}

/// The positions of the walked documents that need indexing, in walk order.
pub open spec fn plan_index(vault: Seq<char>, docs: Map<Seq<char>, DocMeta>, es: Seq<WalkEntry>) -> Seq<
    int,
>
    decreases es.len(),
{
    if es.len() == 0 {
        seq![]
    } else {
        let rest = plan_index(vault, docs, es.drop_last());
        if indexable(vault, es.last()) && needs_index(docs, es.last()) {
            rest.push(es.len() - 1)
        } else {
            rest
        }
    }
}

/// How many walked documents are unchanged.
pub open spec fn plan_skipped(vault: Seq<char>, docs: Map<Seq<char>, DocMeta>, es: Seq<WalkEntry>) -> nat
    decreases es.len(),
{
    if es.len() == 0 {
        0
    } else {
        plan_skipped(vault, docs, es.drop_last()) + if indexable(vault, es.last()) && !needs_index(
            docs,
            es.last(),
        ) {
            1nat
        } else {
            0nat
        }
    }
}

/// The walk found a document at `p`.
pub open spec fn on_disk(vault: Seq<char>, es: Seq<WalkEntry>, p: Seq<char>) -> bool {
    exists|k: int| 0 <= k < es.len() && indexable(vault, #[trigger] es[k]) && es[k].path@ == p
}

/// Documents of the store that the walk no longer finds.
pub open spec fn stale(vault: Seq<char>, docs: Map<Seq<char>, DocMeta>, es: Seq<WalkEntry>) -> Set<
    Seq<char>,
> {
    docs.dom().filter(|p: Seq<char>| !on_disk(vault, es, p))
}

/// The targets that the links resolve to, in order, unresolved ones dropped.
pub open spec fn resolved_targets(
    docs: Seq<Seq<char>>,
    present: Seq<Seq<char>>,
    vault: Seq<char>,
    links: Seq<LinkRef>,
) -> Seq<Seq<char>>
    decreases links.len(),
{
    if links.len() == 0 {
        seq![]
    } else {
        let rest = resolved_targets(docs, present, vault, links.drop_last());
        match resolved(docs, present, vault, links.last().0) {
            Some(t) => rest.push(t),
            None => rest,
        }
    }
}

/// The store after indexing the walked document `e` with the text `content`;
/// a document that could not be read leaves the store as it was.
pub open spec fn index_step(
    m: StoreModel,
    docs: Seq<Seq<char>>,
    present: Seq<Seq<char>>,
    vault: Seq<char>,
    e: WalkEntry,
    content: Option<Seq<char>>,
) -> StoreModel {
    match content {
        Some(c) => (
            m.0.insert(e.path@, DocMeta { modified_at: e.modified, size: e.size }),
            indexed_edges(m.1, e.path@, resolved_targets(docs, present, vault, extract(c))),
        ),
        None => m,
    }
}

/// The store after the first `n` documents of `order` are indexed.
pub open spec fn index_steps(
    m: StoreModel,
    docs: Seq<Seq<char>>,
    present: Seq<Seq<char>>,
    vault: Seq<char>,
    es: Seq<WalkEntry>,
    order: Seq<int>,
    contents: Seq<Option<Seq<char>>>,
    n: int,
) -> StoreModel
    decreases n,
{
    if n <= 0 {
        m
    } else {
        index_step(
            index_steps(m, docs, present, vault, es, order, contents, n - 1),
            docs,
            present,
            vault,
            es[order[n - 1]],
            contents[n - 1],
        )
    }
}

/// The store after a whole sync: every planned document indexed, then the
/// stale ones deleted.
pub open spec fn synced(
    m: StoreModel,
    docs: Seq<Seq<char>>,
    present: Seq<Seq<char>>,
    vault: Seq<char>,
    es: Seq<WalkEntry>,
    order: Seq<int>,
    contents: Seq<Option<Seq<char>>>,
    to_delete: Seq<Seq<char>>,
) -> StoreModel {
    let mid = index_steps(m, docs, present, vault, es, order, contents, order.len() as int);
    (docs_without(mid.0, to_delete), edges_without(mid.1, to_delete))
}

/// How many of `contents` could be read.
pub open spec fn count_read(contents: Seq<Option<Seq<char>>>) -> nat
    decreases contents.len(),
{
    if contents.len() == 0 {
        0
    } else {
        count_read(contents.drop_last()) + if contents.last() is Some {
            1nat
        } else {
            0nat
        }
    }
}

/// The positions of `v` as integers.
pub open spec fn as_ints(v: Seq<usize>) -> Seq<int> {
    v.map_values(|x: usize| x as int)
}

/// The texts of `v` as plain values.
pub open spec fn contents_view(v: Seq<Option<String>>) -> Seq<Option<Seq<char>>> {
    v.map_values(|o: Option<String>| opt_view(o))
}

impl VaultIndexer {
    /// Works out a full sync: which walked documents need indexing, how many
    /// are unchanged, and which documents of the store are gone. Fails when
    /// the vault root does not exist.
    pub fn plan_sync(db: &Database, vault_path: &str, listing: &VaultListing) -> (r: Result<
        SyncPlan,
        IndexError,
    >)
        requires
            db.wf(),
        ensures
            r is Err <==> !listing.root_exists,
            r matches Ok(plan) ==> {
                &&& as_ints(plan.to_index@) == plan_index(
                    vault_path@,
                    db.documents(),
                    listing.entries@,
                )
                &&& plan.files_skipped == plan_skipped(vault_path@, db.documents(), listing.entries@)
                &&& string_views(plan.to_delete@).to_set() == stale(
                    vault_path@,
                    db.documents(),
                    listing.entries@,
                )
                &&& string_views(plan.to_delete@).no_duplicates()
            },
    {
        if !listing.root_exists {
            return Err(IndexError::VaultNotFound);
        }
        let vault = crate::text::chars_of(vault_path);
        let all = db.get_all_indexed_files();
        let ghost docs = db.documents();
        let ghost es = listing.entries@;
        let mut to_index: Vec<usize> = Vec::new();
        let mut skipped: usize = 0;
        let mut i: usize = 0;
        while i < listing.entries.len()
            invariant
                i <= listing.entries.len(),
                es == listing.entries@,
                vault@ == vault_path@,
                docs == db.documents(),
                skipped <= i,
                forall|k: int|
                    0 <= k < all.len() ==> docs.contains_key((#[trigger] all@[k]).0@)
                        && docs[all@[k].0@].modified_at == all@[k].1,
                forall|p: Seq<char>|
                    #[trigger] docs.contains_key(p) ==> exists|k: int|
                        0 <= k < all.len() && all@[k].0@ == p,
                as_ints(to_index@) == plan_index(vault@, docs, es.take(i as int)),
                skipped == plan_skipped(vault@, docs, es.take(i as int)),
            decreases listing.entries.len() - i,
        {
            let e = &listing.entries[i];
            let ghost now = es.take(i + 1);
            assert(now.drop_last() == es.take(i as int));
            assert(now.last() == *e);
            if is_indexable(&vault, e) {
                let mut known: Option<i64> = None;
                let mut k: usize = 0;
                while k < all.len()
                    invariant
                        k <= all.len(),
                        match known {
                            Some(m) => docs.contains_key(e.path@) && docs[e.path@].modified_at == m,
                            None => forall|j: int| 0 <= j < k ==> (#[trigger] all@[j]).0@ != e.path@,
                        },
                        forall|j: int|
                            0 <= j < all.len() ==> docs.contains_key((#[trigger] all@[j]).0@)
                                && docs[all@[j].0@].modified_at == all@[j].1,
                    decreases all.len() - k,
                {
                    if known.is_none() && all[k].0 == e.path {
                        known = Some(all[k].1);
                    }
                    k = k + 1;
                }
                let needs = match known {
                    Some(m) => e.modified > m,
                    None => true,
                };
                proof {
                    if known is None {
                        if docs.contains_key(e.path@) {
                            let j = choose|j: int| 0 <= j < all.len() && all@[j].0@ == e.path@;
                            assert(all@[j].0@ != e.path@);
                        }
                    }
                    assert(needs == needs_index(docs, *e));
                }
                if needs {
                    let ghost before = to_index@;
                    to_index.push(i);
                    assert(as_ints(to_index@) =~= as_ints(before).push(i as int));
                } else {
                    skipped = skipped + 1;
                }
            }
            i = i + 1;
        }
        assert(es.take(es.len() as int) == es);
        let mut to_delete: Vec<String> = Vec::new();
        let ghost mut idx: Seq<int> = seq![];
        let mut k: usize = 0;
        while k < all.len()
            invariant
                k <= all.len(),
                es == listing.entries@,
                vault@ == vault_path@,
                docs == db.documents(),
                forall|j: int|
                    0 <= j < all.len() ==> docs.contains_key((#[trigger] all@[j]).0@),
                forall|p: Seq<char>|
                    #[trigger] docs.contains_key(p) ==> exists|j: int|
                        0 <= j < all.len() && all@[j].0@ == p,
                forall|a: int, b: int|
                    0 <= a < all.len() && 0 <= b < all.len() && a != b ==> (#[trigger] all@[a]).0@
                        != (#[trigger] all@[b]).0@,
                idx.len() == to_delete.len(),
                forall|j: int|
                    0 <= j < to_delete.len() ==> 0 <= #[trigger] idx[j] < k && all@[idx[j]].0@
                        == to_delete@[j]@ && !on_disk(vault@, es, to_delete@[j]@),
                forall|a: int, b: int| 0 <= a < b < to_delete.len() ==> #[trigger] idx[a] < #[trigger] idx[b],
                forall|j: int|
                    0 <= j < k && !on_disk(vault@, es, (#[trigger] all@[j]).0@) ==> exists|m: int|
                        0 <= m < to_delete.len() && idx[m] == j,
            decreases all.len() - k,
        {
            let p = &all[k].0;
            let mut found = false;
            let mut j: usize = 0;
            while j < listing.entries.len()
                invariant
                    j <= listing.entries.len(),
                    es == listing.entries@,
                    vault@ == vault_path@,
                    found <==> exists|m: int|
                        0 <= m < j && indexable(vault@, #[trigger] es[m]) && es[m].path@ == p@,
                decreases listing.entries.len() - j,
            {
                if !found && is_indexable(&vault, &listing.entries[j]) && listing.entries[j].path
                    == *p {
                    found = true;
                }
                j = j + 1;
            }
            let ghost old_idx = idx;
            if !found {
                to_delete.push(p.clone());
                proof {
                    idx = idx.push(k as int);
                }
            }
            proof {
                assert forall|j2: int|
                    0 <= j2 < k + 1 && !on_disk(vault@, es, (#[trigger] all@[j2]).0@) implies exists|
                    m: int,
                | 0 <= m < to_delete.len() && idx[m] == j2 by {
                    if j2 == k {
                        assert(idx[to_delete.len() - 1] == j2);
                    } else {
                        let m = choose|m: int| 0 <= m < old_idx.len() && old_idx[m] == j2;
                        assert(idx[m] == j2);
                    }
                }
            }
            k = k + 1;
        }
        proof {
            let sv = string_views(to_delete@);
            let st = stale(vault_path@, docs, es);
            assert(sv.to_set() =~= st) by {
                assert forall|p: Seq<char>| #[trigger] sv.to_set().contains(p) implies st.contains(p) by {
                    let j = choose|j: int| 0 <= j < sv.len() && sv[j] == p;
                    assert(sv[j] == to_delete@[j]@);
                    assert(0 <= idx[j] < all.len());
                }
                assert forall|p: Seq<char>| #[trigger] st.contains(p) implies sv.to_set().contains(p) by {
                    let j = choose|j: int| 0 <= j < all.len() && all@[j].0@ == p;
                    let m = choose|m: int| 0 <= m < to_delete.len() && idx[m] == j;
                    assert(sv[m] == p);
                }
            }
            assert forall|a: int, b: int| 0 <= a < sv.len() && 0 <= b < sv.len() && a != b implies sv[a]
                != sv[b] by {
                if a < b {
                    assert(idx[a] < idx[b]);
                } else {
                    assert(idx[b] < idx[a]);
                }
                assert(all@[idx[a]].0@ != all@[idx[b]].0@);
            }
        }
        Ok(SyncPlan { to_index, files_skipped: skipped, to_delete })
    }

    /// Indexes one walked document: extracts its links, resolves each, and
    /// records the document with the targets found.
    pub fn index_single_file(
        db: &mut Database,
        vault_path: &str,
        file_index: &FileIndex,
        entry: &WalkEntry,
        content: &str,
    )
        requires
            old(db).wf(),
        ensures
            final(db).wf(),
            (final(db).documents(), final(db).edges()) == index_step(
                (old(db).documents(), old(db).edges()),
                file_index.documents(),
                file_index.present(),
                vault_path@,
                *entry,
                Some(content@),
            ),
    {
        let links = extract_wikilinks(content);
        let ghost lv = links_view(links@);
        let mut targets: Vec<String> = Vec::new();
        let mut i: usize = 0;
        while i < links.len()
            invariant
                i <= links.len(),
                lv == links_view(links@),
                string_views(targets@) == resolved_targets(
                    file_index.documents(),
                    file_index.present(),
                    vault_path@,
                    lv.take(i as int),
                ),
            decreases links.len() - i,
        {
            let ghost pre = lv.take(i as int);
            let ghost now = lv.take(i + 1);
            assert(now.drop_last() == pre);
            assert(now.last() == links@[i as int]@);
            let ghost before = targets@;
            match file_index.resolve(vault_path, links[i].target.as_str()) {
                Some(t) => {
                    targets.push(t);
                    assert(string_views(targets@) =~= string_views(before).push(t@));
                },
                None => {},
            }
            i = i + 1;
        }
        assert(lv.take(links.len() as int) == lv);
        db.index_file(entry.path.as_str(), entry.modified, entry.size, targets.as_slice());
    }

    /// Carries out a planned sync. `contents` holds, for each planned
    /// document in order, its text, or nothing where it could not be read;
    /// such a document is counted as failed and the sync goes on.
    pub fn apply_sync(
        db: &mut Database,
        vault_path: &str,
        file_index: &FileIndex,
        listing: &VaultListing,
        plan: &SyncPlan,
        contents: &Vec<Option<String>>,
    ) -> (r: IndexStats)
        requires
            old(db).wf(),
            contents.len() == plan.to_index.len(),
            forall|k: int| 0 <= k < plan.to_index.len() ==> #[trigger] plan.to_index@[k] < listing.entries.len(),
        ensures
            final(db).wf(),
            (final(db).documents(), final(db).edges()) == synced(
                (old(db).documents(), old(db).edges()),
                file_index.documents(),
                file_index.present(),
                vault_path@,
                listing.entries@,
                as_ints(plan.to_index@),
                contents_view(contents@),
                string_views(plan.to_delete@),
            ),
            r.files_indexed == count_read(contents_view(contents@)),
            r.files_failed == contents.len() - count_read(contents_view(contents@)),
            r.files_skipped == plan.files_skipped,
            r.files_deleted == removed_count(
                index_steps(
                    (old(db).documents(), old(db).edges()),
                    file_index.documents(),
                    file_index.present(),
                    vault_path@,
                    listing.entries@,
                    as_ints(plan.to_index@),
                    contents_view(contents@),
                    plan.to_index.len() as int,
                ).0,
                string_views(plan.to_delete@),
            ),
            r.duration_ms == 0,
    {
        let ghost m0 = (db.documents(), db.edges());
        let ghost order = as_ints(plan.to_index@);
        let ghost cv = contents_view(contents@);
        let mut indexed: usize = 0;
        let mut failed: usize = 0;
        let mut k: usize = 0;
        while k < plan.to_index.len()
            invariant
                k <= plan.to_index.len(),
                contents.len() == plan.to_index.len(),
                forall|j: int| 0 <= j < plan.to_index.len() ==> #[trigger] plan.to_index@[j] < listing.entries.len(),
                order == as_ints(plan.to_index@),
                cv == contents_view(contents@),
                db.wf(),
                (db.documents(), db.edges()) == index_steps(
                    m0,
                    file_index.documents(),
                    file_index.present(),
                    vault_path@,
                    listing.entries@,
                    order,
                    cv,
                    k as int,
                ),
                indexed == count_read(cv.take(k as int)),
                indexed + failed == k,
            decreases plan.to_index.len() - k,
        {
            let e = &listing.entries[plan.to_index[k]];
            assert(cv.take(k + 1).drop_last() == cv.take(k as int));
            assert(cv.take(k + 1).last() == cv[k as int]);
            match &contents[k] {
                Some(c) => {
                    Self::index_single_file(db, vault_path, file_index, e, c.as_str());
                    indexed = indexed + 1;
                },
                None => {
                    failed = failed + 1;
                },
            }
            k = k + 1;
        }
        assert(cv.take(cv.len() as int) == cv);
        let deleted = db.batch_delete_files(plan.to_delete.as_slice());
        IndexStats {
            files_indexed: indexed,
            files_deleted: deleted,
            files_skipped: plan.files_skipped,
            files_failed: failed,
            duration_ms: 0,
        }
    }
}

proof fn lemma_plan_index(vault: Seq<char>, docs: Map<Seq<char>, DocMeta>, es: Seq<WalkEntry>)
    ensures
        forall|j: int|
            0 <= j < plan_index(vault, docs, es).len() ==> {
                let k = #[trigger] plan_index(vault, docs, es)[j];
                &&& 0 <= k < es.len()
                &&& indexable(vault, es[k])
                &&& needs_index(docs, es[k])
            },
        forall|k: int|
            0 <= k < es.len() && indexable(vault, #[trigger] es[k]) && needs_index(docs, es[k])
                ==> exists|j: int|
                0 <= j < plan_index(vault, docs, es).len() && plan_index(vault, docs, es)[j] == k,
    decreases es.len(),
{
    if es.len() > 0 {
        let pre = es.drop_last();
        lemma_plan_index(vault, docs, pre);
        let rest = plan_index(vault, docs, pre);
        let all = plan_index(vault, docs, es);
        assert forall|j: int| 0 <= j < rest.len() implies #[trigger] all[j] == rest[j] && es[rest[j]]
            == pre[rest[j]] by {}
        assert forall|k: int|
            0 <= k < es.len() && indexable(vault, #[trigger] es[k]) && needs_index(docs, es[k])
                implies exists|j: int| 0 <= j < all.len() && all[j] == k by {
            if k < es.len() - 1 {
                assert(pre[k] == es[k]);
                let j = choose|j: int| 0 <= j < rest.len() && rest[j] == k;
                assert(all[j] == k);
            } else {
                assert(all[all.len() - 1] == k);
            }
        }
    }
}

/// The `j`-th planned document was read.
pub open spec fn read_at(contents: Seq<Option<Seq<char>>>, j: int) -> bool {
    contents[j] is Some
}

proof fn lemma_steps_docs(
    m: StoreModel,
    docs: Seq<Seq<char>>,
    present: Seq<Seq<char>>,
    vault: Seq<char>,
    es: Seq<WalkEntry>,
    order: Seq<int>,
    contents: Seq<Option<Seq<char>>>,
    n: int,
)
    requires
        0 <= n <= order.len(),
        n <= contents.len(),
        forall|j: int| 0 <= j < n ==> 0 <= #[trigger] order[j] < es.len(),
        forall|a: int, b: int|
            0 <= a < n && 0 <= b < n && a != b ==> es[#[trigger] order[a]].path@ != es[#[trigger] order[b]].path@,
    ensures
        forall|j: int|
            0 <= j < n && read_at(contents, j) ==> {
                let e = es[#[trigger] order[j]];
                let d = index_steps(m, docs, present, vault, es, order, contents, n).0;
                d.contains_key(e.path@) && d[e.path@] == (DocMeta { modified_at: e.modified, size: e.size })
            },
        forall|p: Seq<char>|
            #![trigger index_steps(m, docs, present, vault, es, order, contents, n).0.contains_key(p)]
            (forall|j: int| 0 <= j < n && read_at(contents, j) ==> es[#[trigger] order[j]].path@ != p) ==> {
                &&& index_steps(m, docs, present, vault, es, order, contents, n).0.contains_key(p)
                    == m.0.contains_key(p)
                &&& m.0.contains_key(p) ==> index_steps(
                    m,
                    docs,
                    present,
                    vault,
                    es,
                    order,
                    contents,
                    n,
                ).0[p] == m.0[p]
            },
        forall|p: Seq<char>|
            #[trigger] index_steps(m, docs, present, vault, es, order, contents, n).0.contains_key(p)
                ==> m.0.contains_key(p) || exists|j: int|
                0 <= j < n && read_at(contents, j) && es[order[j]].path@ == p,
    decreases n,
{
    if n > 0 {
        lemma_steps_docs(m, docs, present, vault, es, order, contents, n - 1);
        let e = es[order[n - 1]];
        let prev = index_steps(m, docs, present, vault, es, order, contents, n - 1).0;
        let d = index_steps(m, docs, present, vault, es, order, contents, n).0;
        if read_at(contents, n - 1) {
            assert(d == prev.insert(e.path@, DocMeta { modified_at: e.modified, size: e.size }));
        } else {
            assert(d == prev);
        }
        assert forall|j: int| 0 <= j < n && read_at(contents, j) implies {
            let ej = es[#[trigger] order[j]];
            d.contains_key(ej.path@) && d[ej.path@] == (DocMeta { modified_at: ej.modified, size: ej.size })
        } by {
            if j < n - 1 {
                assert(es[order[j]].path@ != es[order[n - 1]].path@);
            }
        }
        assert forall|p: Seq<char>| #[trigger] d.contains_key(p) implies m.0.contains_key(p) || exists|j: int|
            0 <= j < n && read_at(contents, j) && es[order[j]].path@ == p by {
            if !(read_at(contents, n - 1) && p == e.path@) {
                assert(prev.contains_key(p));
            }
        }
        assert forall|p: Seq<char>|
            #![trigger d.contains_key(p)]
            (forall|j: int| 0 <= j < n && read_at(contents, j) ==> es[#[trigger] order[j]].path@ != p) implies {
            &&& d.contains_key(p) == m.0.contains_key(p)
            &&& m.0.contains_key(p) ==> d[p] == m.0[p]
        } by {
            if read_at(contents, n - 1) {
                assert(es[order[n - 1]].path@ != p);
            }
            assert(prev.contains_key(p) == m.0.contains_key(p));
        }
    }
}

proof fn lemma_unread_steps(
    m: StoreModel,
    docs: Seq<Seq<char>>,
    present: Seq<Seq<char>>,
    vault: Seq<char>,
    es: Seq<WalkEntry>,
    order: Seq<int>,
    contents: Seq<Option<Seq<char>>>,
    n: int,
)
    requires
        n <= contents.len(),
        forall|k: int| 0 <= k < contents.len() ==> #[trigger] contents[k] is None,
    ensures
        index_steps(m, docs, present, vault, es, order, contents, n) == m,
        count_read(contents.take(if n < 0 { 0 } else { n })) == 0,
    decreases n,
{
    if n > 0 {
        lemma_unread_steps(m, docs, present, vault, es, order, contents, n - 1);
        let t = contents.take(n);
        assert(t.drop_last() == contents.take(n - 1));
        assert(t.last() == contents[n - 1]);
    } else {
        assert(contents.take(0).len() == 0);
    }
}

/// A second full sync with no change in the vault since the first:
/// - it plans again only documents that the first sync could not read, so
///   when the first sync read every planned document it indexes nothing;
/// - it deletes nothing;
/// - when the documents it plans stay unreadable, it indexes none and leaves
///   the documents and edges as the first sync left them.
/// The walk is taken to report each document once.
pub proof fn lemma_second_sync_is_quiet(
    m0: StoreModel,
    docs: Seq<Seq<char>>,
    present: Seq<Seq<char>>,
    vault: Seq<char>,
    es: Seq<WalkEntry>,
    contents: Seq<Option<Seq<char>>>,
    to_delete: Seq<Seq<char>>,
)
    requires
        forall|a: int, b: int|
            0 <= a < es.len() && 0 <= b < es.len() && a != b && indexable(vault, #[trigger] es[a])
                && indexable(vault, #[trigger] es[b]) ==> es[a].path@ != es[b].path@,
        contents.len() == plan_index(vault, m0.0, es).len(),
        to_delete.to_set() == stale(vault, m0.0, es),
    ensures
        ({
            let first = plan_index(vault, m0.0, es);
            let m1 = synced(m0, docs, present, vault, es, first, contents, to_delete);
            let second = plan_index(vault, m1.0, es);
            &&& forall|k: int|
                0 <= k < second.len() ==> exists|j: int|
                    0 <= j < first.len() && first[j] == #[trigger] second[k] && !read_at(contents, j)
            &&& (forall|j: int| 0 <= j < contents.len() ==> read_at(contents, j)) ==> second.len() == 0
            &&& stale(vault, m1.0, es) == Set::<Seq<char>>::empty()
            &&& forall|
                docs2: Seq<Seq<char>>,
                present2: Seq<Seq<char>>,
                contents2: Seq<Option<Seq<char>>>,
                to_delete2: Seq<Seq<char>>,
            |
                #![trigger synced(m1, docs2, present2, vault, es, second, contents2, to_delete2)]
                contents2.len() == second.len() && (forall|k: int|
                    0 <= k < contents2.len() ==> #[trigger] contents2[k] is None)
                    && to_delete2.to_set() == stale(vault, m1.0, es) ==> synced(
                    m1,
                    docs2,
                    present2,
                    vault,
                    es,
                    second,
                    contents2,
                    to_delete2,
                ) == m1 && count_read(contents2) == 0
        }),
{
    let order = plan_index(vault, m0.0, es);
    let n = order.len() as int;
    lemma_plan_index(vault, m0.0, es);
    assert forall|a: int, b: int|
        0 <= a < n && 0 <= b < n && a != b implies es[#[trigger] order[a]].path@ != es[#[trigger] order[b]].path@ by {
        if a < b {
            lemma_plan_strictly_increasing(vault, m0.0, es, a, b);
        } else {
            lemma_plan_strictly_increasing(vault, m0.0, es, b, a);
        }
    }
    lemma_steps_docs(m0, docs, present, vault, es, order, contents, n);
    let mid = index_steps(m0, docs, present, vault, es, order, contents, n).0;
    let m1 = synced(m0, docs, present, vault, es, order, contents, to_delete);
    let del = to_delete.to_set();
    assert(m1.0 == mid.remove_keys(del));
    // a walked document still needs indexing only if its first read failed
    assert forall|k: int|
        0 <= k < es.len() && indexable(vault, #[trigger] es[k]) && needs_index(m1.0, es[k]) implies exists|j: int|
        0 <= j < n && order[j] == k && !read_at(contents, j) by {
        let e = es[k];
        assert(on_disk(vault, es, e.path@));
        assert(!del.contains(e.path@));
        if needs_index(m0.0, e) {
            let j = choose|j: int| 0 <= j < order.len() && order[j] == k;
            assert(es[order[j]] == e);
            if read_at(contents, j) {
                assert(!needs_index(m1.0, e));
            }
        } else {
            assert forall|j: int| 0 <= j < n && read_at(contents, j) implies es[#[trigger] order[j]].path@
                != e.path@ by {
                if es[order[j]].path@ == e.path@ {
                    assert(order[j] != k);
                }
            }
            assert(mid.contains_key(e.path@) == m0.0.contains_key(e.path@));
            assert(!needs_index(m1.0, e));
        }
    }
    let second = plan_index(vault, m1.0, es);
    lemma_plan_index(vault, m1.0, es);
    assert forall|k: int| 0 <= k < second.len() implies exists|j: int|
        0 <= j < order.len() && order[j] == #[trigger] second[k] && !read_at(contents, j) by {
        let i = second[k];
        assert(indexable(vault, es[i]) && needs_index(m1.0, es[i]));
    }
    if forall|j: int| 0 <= j < contents.len() ==> read_at(contents, j) {
        if second.len() > 0 {
            let i = second[0];
            assert(indexable(vault, es[i]) && needs_index(m1.0, es[i]));
        }
    }
    assert forall|p: Seq<char>| !(#[trigger] stale(vault, m1.0, es).contains(p)) by {
        if m1.0.contains_key(p) {
            assert(mid.contains_key(p) && !del.contains(p));
            if !on_disk(vault, es, p) {
                if m0.0.contains_key(p) {
                    assert(stale(vault, m0.0, es).contains(p));
                } else {
                    let j = choose|j: int| 0 <= j < n && read_at(contents, j) && es[order[j]].path@ == p;
                    assert(indexable(vault, es[order[j]]));
                }
            }
        }
    }
    assert(stale(vault, m1.0, es) =~= Set::<Seq<char>>::empty());
    assert forall|
        docs2: Seq<Seq<char>>,
        present2: Seq<Seq<char>>,
        contents2: Seq<Option<Seq<char>>>,
        to_delete2: Seq<Seq<char>>,
    |
        contents2.len() == second.len() && (forall|k: int|
            0 <= k < contents2.len() ==> #[trigger] contents2[k] is None) && to_delete2.to_set()
            == stale(vault, m1.0, es) implies #[trigger] synced(
        m1,
        docs2,
        present2,
        vault,
        es,
        second,
        contents2,
        to_delete2,
    ) == m1 && count_read(contents2) == 0 by {
        lemma_unread_steps(m1, docs2, present2, vault, es, second, contents2, second.len() as int);
        assert(contents2.take(contents2.len() as int) == contents2);
        assert forall|p: Seq<char>| !to_delete2.contains(p) by {
            if to_delete2.contains(p) {
                assert(to_delete2.to_set().contains(p));
            }
        }
        assert(docs_without(m1.0, to_delete2) =~= m1.0);
        assert(edges_without(m1.1, to_delete2) =~= m1.1);
    }
}

proof fn lemma_plan_strictly_increasing(
    vault: Seq<char>,
    docs: Map<Seq<char>, DocMeta>,
    es: Seq<WalkEntry>,
    a: int,
    b: int,
)
    requires
        0 <= a < b < plan_index(vault, docs, es).len(),
    ensures
        plan_index(vault, docs, es)[a] < plan_index(vault, docs, es)[b],
    decreases es.len(),
{
    if es.len() > 0 {
        let pre = es.drop_last();
        let rest = plan_index(vault, docs, pre);
        lemma_plan_index(vault, docs, pre);
        if b < rest.len() {
            lemma_plan_strictly_increasing(vault, docs, pre, a, b);
        } else {
            assert(rest[a] < pre.len());
        }
    }
}

} // verus!
