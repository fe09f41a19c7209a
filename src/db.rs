//! The link-graph store: documents keyed by path, and directed edges from a
//! source document to a target path.
//!
//! Every edge's source is a document; deleting a document deletes the edges it
//! is the source of, while edges that point at it stay behind as broken links.
use vstd::prelude::*;
use crate::path::{is_safe_target, safe_target};
use crate::text::chars_of;

verus! {

/// What the store records of a document.
#[derive(Debug, Clone, Copy, PartialEq, Eq)]
pub struct DocMeta {
    /// Last modification, in whole seconds since the Unix epoch.
    pub modified_at: i64,
    pub size: u64,
}

/// A directed edge as plain values: source path and target path.
pub type Edge = (Seq<char>, Seq<char>);

/// Why the store refused a change.
#[derive(Debug, Clone, Copy, PartialEq, Eq)]
pub enum StoreError {
    /// A rename would give a document the path of another document.
    PathTaken,
    /// A rename would put a blank path, or one with a `..` segment, into the
    /// graph.
    UnsafePath,
}

impl StoreError {
    /// A message for the user.
    pub fn message(&self) -> (r: String)
        ensures
            *self == StoreError::PathTaken ==> r@ == "A document with that path already exists"@,
            *self == StoreError::UnsafePath ==> r@ == "The new path is not a safe path"@,
    {
        match self {
            StoreError::PathTaken => String::from_str("A document with that path already exists"),
            StoreError::UnsafePath => String::from_str("The new path is not a safe path"),
        }
    }
}

/// The paths that `source` links to.
pub open spec fn outgoing(edges: Set<Edge>, source: Seq<char>) -> Set<Seq<char>> {
    Set::new(|t: Seq<char>| edges.contains((source, t)))
}

/// The paths that link to `target`.
pub open spec fn incoming(edges: Set<Edge>, target: Seq<char>) -> Set<Seq<char>> {
    Set::new(|s: Seq<char>| edges.contains((s, target)))
}

/// The targets of `links` that may be stored.
pub open spec fn safe_targets(links: Seq<Seq<char>>) -> Set<Seq<char>> {
    Set::new(|t: Seq<char>| safe_target(t) && links.contains(t))
}

/// The edges after indexing `path` with the targets `links`: the old edges
/// from `path` are gone and one edge per safe target takes their place.
pub open spec fn indexed_edges(edges: Set<Edge>, path: Seq<char>, links: Seq<Seq<char>>) -> Set<
    Edge,
> {
    Set::new(
        |e: Edge|
            if e.0 == path {
                safe_targets(links).contains(e.1)
            } else {
                edges.contains(e)
            },
    )
}

/// The edges after the document at `path` is deleted.
pub open spec fn deleted_edges(edges: Set<Edge>, path: Seq<char>) -> Set<Edge> {
    edges.filter(|e: Edge| e.0 != path)
}

/// `p` with `from` renamed to `to`.
pub open spec fn renamed(p: Seq<char>, from: Seq<char>, to: Seq<char>) -> Seq<char> {
    if p == from {
        to
    } else {
        p
    }
}

/// An edge with `from` renamed to `to` at both ends.
pub open spec fn rename_edge(e: Edge, from: Seq<char>, to: Seq<char>) -> Edge {
    (renamed(e.0, from, to), renamed(e.1, from, to))
}

/// The edges after `from` is renamed to `to`, as source and as target.
pub open spec fn renamed_edges(edges: Set<Edge>, from: Seq<char>, to: Seq<char>) -> Set<Edge> {
    edges.map(|e: Edge| rename_edge(e, from, to))
}

/// The documents after `from` is renamed to `to`.
pub open spec fn renamed_docs(docs: Map<Seq<char>, DocMeta>, from: Seq<char>, to: Seq<char>) -> Map<
    Seq<char>,
    DocMeta,
> {
    if docs.contains_key(from) {
        docs.remove(from).insert(to, docs[from])
    } else {
        docs
    }
}

/// A rename is refused when it would give a document the path of another one.
pub open spec fn rename_collides(docs: Map<Seq<char>, DocMeta>, from: Seq<char>, to: Seq<char>) -> bool {
    from != to && docs.contains_key(from) && docs.contains_key(to)
}

/// Documents with no incoming and no outgoing edge.
pub open spec fn orphans(docs: Map<Seq<char>, DocMeta>, edges: Set<Edge>) -> Set<Seq<char>> {
    Set::new(
        |p: Seq<char>|
            docs.contains_key(p) && outgoing(edges, p).is_empty() && incoming(edges, p).is_empty(),
    )
}

/// Edges whose target is not a document.
pub open spec fn broken(docs: Map<Seq<char>, DocMeta>, edges: Set<Edge>) -> Set<Edge> {
    edges.filter(|e: Edge| !docs.contains_key(e.1))
}

/// Every edge's source is a document.
pub open spec fn sources_are_documents(docs: Map<Seq<char>, DocMeta>, edges: Set<Edge>) -> bool {
    forall|e: Edge| #[trigger] edges.contains(e) ==> docs.contains_key(e.0)
}

/// An edge row as plain values.
pub open spec fn pair_view(l: (String, String)) -> Edge {
    (l.0@, l.1@)
}

/// Edge rows as plain values.
pub open spec fn pair_views(v: Seq<(String, String)>) -> Seq<Edge> {
    v.map_values(|l: (String, String)| pair_view(l))
}

/// Strings as plain values.
pub open spec fn string_views(v: Seq<String>) -> Seq<Seq<char>> {
    v.map_values(|s: String| s@)
}

/// The number of distinct paths of `paths` that are documents of `docs`.
pub open spec fn removed_count(docs: Map<Seq<char>, DocMeta>, paths: Seq<Seq<char>>) -> nat
    decreases paths.len(),
{
    if paths.len() == 0 {
        0
    } else {
        let rest = paths.drop_last();
        removed_count(docs, rest) + if docs.contains_key(paths.last()) && !rest.contains(
            paths.last(),
        ) {
            1nat
        } else {
            0nat
        }
    }
}

/// The documents after every path of `paths` is deleted.
pub open spec fn docs_without(docs: Map<Seq<char>, DocMeta>, paths: Seq<Seq<char>>) -> Map<
    Seq<char>,
    DocMeta,
> {
    docs.remove_keys(paths.to_set())
}

/// The edges after every path of `paths` is deleted.
pub open spec fn edges_without(edges: Set<Edge>, paths: Seq<Seq<char>>) -> Set<Edge> {
    edges.filter(|e: Edge| !paths.contains(e.0))
}

/// A stored document.
struct Note {
    path: String,
    meta: DocMeta,
}

spec fn has_path(v: Seq<Note>, p: Seq<char>) -> bool {
    exists|k: int| 0 <= k < v.len() && (#[trigger] v[k]).path@ == p
}

spec fn doc_map(v: Seq<Note>) -> Map<Seq<char>, DocMeta> {
    Map::new(
        |p: Seq<char>| has_path(v, p),
        |p: Seq<char>| v[choose|k: int| 0 <= k < v.len() && (#[trigger] v[k]).path@ == p].meta,
    )
}

spec fn unique_paths(v: Seq<Note>) -> bool {
    forall|a: int, b: int|
        0 <= a < v.len() && 0 <= b < v.len() && a != b ==> (#[trigger] v[a]).path@ != (
        #[trigger] v[b]).path@
}

spec fn edge_set(v: Seq<(String, String)>) -> Set<Edge> {
    Set::new(|e: Edge| exists|k: int| 0 <= k < v.len() && pair_view(#[trigger] v[k]) == e)
}

spec fn unique_pairs(v: Seq<(String, String)>) -> bool {
    forall|a: int, b: int|
        0 <= a < v.len() && 0 <= b < v.len() && a != b ==> pair_view(#[trigger] v[a])
            != pair_view(#[trigger] v[b])
}

proof fn lemma_doc_at(v: Seq<Note>, k: int)
    requires
        unique_paths(v),
        0 <= k < v.len(),
    ensures
        doc_map(v).contains_key(v[k].path@),
        doc_map(v)[v[k].path@] == v[k].meta,
{
    let p = v[k].path@;
    assert(has_path(v, p));
    let j = choose|j: int| 0 <= j < v.len() && (#[trigger] v[j]).path@ == p;
    assert(j == k);
}

/// `doc_map(v)` is `m` when the rows of `v` are exactly the entries of `m`.
proof fn lemma_doc_map_is(v: Seq<Note>, m: Map<Seq<char>, DocMeta>)
    requires
        unique_paths(v),
        forall|k: int|
            0 <= k < v.len() ==> m.contains_key((#[trigger] v[k]).path@) && m[v[k].path@]
                == v[k].meta,
        forall|p: Seq<char>| #[trigger] m.contains_key(p) ==> has_path(v, p),
    ensures
        doc_map(v) == m,
{
    assert forall|p: Seq<char>| #[trigger] doc_map(v).contains_key(p) implies m.contains_key(p)
        && doc_map(v)[p] == m[p] by {
        let k = choose|k: int| 0 <= k < v.len() && (#[trigger] v[k]).path@ == p;
        lemma_doc_at(v, k);
    }
    assert(doc_map(v) =~= m);
}

/// The link-graph store.
pub struct Database {
    notes: Vec<Note>,
    links: Vec<(String, String)>,
}

impl Database {
    /// The documents, by path.
    pub closed spec fn documents(&self) -> Map<Seq<char>, DocMeta> {
        doc_map(self.notes@)
    }

    /// The edges.
    pub closed spec fn edges(&self) -> Set<Edge> {
        edge_set(self.links@)
    }

    /// The store's invariant: paths and edges are unique, and every edge's
    /// source is a document.
    pub closed spec fn wf(&self) -> bool {
        &&& unique_paths(self.notes@)
        &&& unique_pairs(self.links@)
        &&& forall|k: int|
            0 <= k < self.links.len() ==> has_path(self.notes@, (#[trigger] self.links@[k]).0@)
    }

    /// The invariant in terms of the model: every edge's source is a document.
    pub proof fn lemma_wf(&self)
        requires
            self.wf(),
        ensures
            sources_are_documents(self.documents(), self.edges()),
    {
        assert forall|e: Edge| #[trigger] self.edges().contains(e) implies self.documents().contains_key(
            e.0,
        ) by {
            let k = choose|k: int|
                0 <= k < self.links.len() && pair_view(#[trigger] self.links@[k]) == e;
        }
    }

    /// An empty store.
    pub fn init() -> (r: Database)
        ensures
            r.wf(),
            r.documents() == Map::<Seq<char>, DocMeta>::empty(),
            r.edges() == Set::<Edge>::empty(),
    {
        let r = Database { notes: Vec::new(), links: Vec::new() };
        assert(r.documents() =~= Map::<Seq<char>, DocMeta>::empty());
        assert(r.edges() =~= Set::<Edge>::empty());
        r
    }

    /// The row of the document at `path`.
    fn note_index(&self, path: &String) -> (r: Option<usize>)
        ensures
            match r {
                Some(k) => k < self.notes.len() && self.notes@[k as int].path@ == path@,
                None => !has_path(self.notes@, path@),
            },
    {
        let mut i: usize = 0;
        while i < self.notes.len()
            invariant
                i <= self.notes.len(),
                forall|k: int| 0 <= k < i ==> (#[trigger] self.notes@[k]).path@ != path@,
            decreases self.notes.len() - i,
        {
            if self.notes[i].path == *path {
                return Some(i);
            }
            i = i + 1;
        }
        None
    }

    /// The row of the edge from `source` to `target`.
    fn link_index(&self, source: &String, target: &String) -> (r: Option<usize>)
        ensures
            match r {
                Some(k) => k < self.links.len() && pair_view(self.links@[k as int]) == (
                source@,
                target@,
                ),
                None => !edge_set(self.links@).contains((source@, target@)),
            },
    {
        let mut i: usize = 0;
        while i < self.links.len()
            invariant
                i <= self.links.len(),
                forall|k: int|
                    0 <= k < i ==> pair_view(#[trigger] self.links@[k]) != (source@, target@),
            decreases self.links.len() - i,
        {
            if self.links[i].0 == *source && self.links[i].1 == *target {
                return Some(i);
            }
            i = i + 1;
        }
        None
    }

    /// Removes every edge whose source is `path`.
    fn remove_links_from(&mut self, path: &String)
        requires
            old(self).wf(),
        ensures
            final(self).notes@ == old(self).notes@,
            unique_pairs(final(self).links@),
            forall|k: int|
                0 <= k < final(self).links.len() ==> has_path(
                    final(self).notes@,
                    (#[trigger] final(self).links@[k]).0@,
                ),
            final(self).edges() == deleted_edges(old(self).edges(), path@),
    {
        let ghost before = edge_set(self.links@);
        let mut i: usize = 0;
        while i < self.links.len()
            invariant
                i <= self.links.len(),
                self.notes@ == old(self).notes@,
                unique_pairs(self.links@),
                before == edge_set(old(self).links@),
                forall|k: int|
                    0 <= k < self.links.len() ==> has_path(
                        self.notes@,
                        (#[trigger] self.links@[k]).0@,
                    ),
                forall|k: int| 0 <= k < i ==> (#[trigger] self.links@[k]).0@ != path@,
                forall|e: Edge| #[trigger] edge_set(self.links@).contains(e) ==> before.contains(e),
                forall|e: Edge|
                    before.contains(e) && e.0 != path@ ==> #[trigger] edge_set(
                        self.links@,
                    ).contains(e),
            decreases self.links.len() - i,
        {
            if self.links[i].0 == *path {
                let ghost prev = self.links@;
                self.links.remove(i);
                proof {
                    assert forall|k: int| 0 <= k < self.links.len() implies (#[trigger] self.links@[k])
                        == if k < i {
                        prev[k]
                    } else {
                        prev[k + 1]
                    } by {}
                    assert forall|e: Edge| #[trigger] edge_set(self.links@).contains(e) implies before.contains(
                        e,
                    ) by {
                        let k = choose|k: int|
                            0 <= k < self.links.len() && pair_view(#[trigger] self.links@[k]) == e;
                        if k < i {
                            assert(edge_set(prev).contains(pair_view(prev[k])));
                        } else {
                            assert(edge_set(prev).contains(pair_view(prev[k + 1])));
                        }
                    }
                    assert forall|e: Edge| before.contains(e) && e.0 != path@ implies #[trigger] edge_set(
                        self.links@,
                    ).contains(e) by {
                        assert(edge_set(prev).contains(e));
                        let k = choose|k: int| 0 <= k < prev.len() && pair_view(#[trigger] prev[k]) == e;
                        assert(k != i);
                        if k < i {
                            assert(pair_view(self.links@[k]) == e);
                        } else {
                            assert(pair_view(self.links@[k - 1]) == e);
                        }
                    }
                }
            } else {
                i = i + 1;
            }
        }
        proof {
            assert(edge_set(self.links@) =~= deleted_edges(before, path@)) by {
                assert forall|e: Edge| #[trigger] edge_set(self.links@).contains(e) implies e.0 != path@ by {
                    let k = choose|k: int|
                        0 <= k < self.links.len() && pair_view(#[trigger] self.links@[k]) == e;
                }
            }
        }
    }

    /// Inserts or replaces the row of the document at `p`.
    fn upsert_note(&mut self, p: String, meta: DocMeta)
        requires
            unique_paths(old(self).notes@),
        ensures
            unique_paths(final(self).notes@),
            final(self).links@ == old(self).links@,
            doc_map(final(self).notes@) == doc_map(old(self).notes@).insert(p@, meta),
            has_path(final(self).notes@, p@),
            forall|q: Seq<char>| has_path(old(self).notes@, q) ==> has_path(final(self).notes@, q),
    {
        let ghost old_notes = self.notes@;
        let ghost old_docs = doc_map(self.notes@);
        let found = self.note_index(&p);
        match found {
            Some(k) => {
                self.notes.remove(k);
            },
            None => {},
        }
        let ghost mid = self.notes@;
        proof {
            // each row of `mid` is a row of the old table other than `p`'s
            assert forall|j: int| 0 <= j < mid.len() implies (#[trigger] mid[j]).path@ != p@ && (
            match found {
                Some(k) => mid[j] == old_notes[if j < k {
                    j
                } else {
                    j + 1
                }],
                None => mid[j] == old_notes[j],
            }) by {
                match found {
                    Some(k) => {
                        if j >= k {
                            assert(old_notes[j + 1].path@ != old_notes[k as int].path@);
                        } else {
                            assert(old_notes[j].path@ != old_notes[k as int].path@);
                        }
                    },
                    None => {
                        assert(has_path(old_notes, old_notes[j].path@) ==> old_notes[j].path@ != p@);
                    },
                }
            }
        }
        let row = Note { path: p.clone(), meta };
        self.notes.push(row);
        proof {
            let v = self.notes@;
            let n = v.len() - 1;
            assert(v[n] == row);
            assert forall|j: int| 0 <= j < n implies #[trigger] v[j] == mid[j] by {}
            assert(unique_paths(v)) by {
                assert forall|a: int, b: int|
                    0 <= a < v.len() && 0 <= b < v.len() && a != b implies (#[trigger] v[a]).path@
                    != (#[trigger] v[b]).path@ by {
                    if a < n && b < n {
                        match found {
                            Some(k) => {
                                let a2 = if a < k {
                                    a
                                } else {
                                    a + 1
                                };
                                let b2 = if b < k {
                                    b
                                } else {
                                    b + 1
                                };
                                assert(mid[a] == old_notes[a2]);
                                assert(mid[b] == old_notes[b2]);
                            },
                            None => {
                                assert(mid[a] == old_notes[a]);
                                assert(mid[b] == old_notes[b]);
                            },
                        }
                    } else if a < n {
                        assert(mid[a].path@ != p@);
                    } else {
                        assert(mid[b].path@ != p@);
                    }
                }
            }
            let target = old_docs.insert(p@, meta);
            assert forall|j: int| 0 <= j < v.len() implies target.contains_key(
                (#[trigger] v[j]).path@,
            ) && target[v[j].path@] == v[j].meta by {
                if j < n {
                    let j2 = match found {
                        Some(k) => if j < k {
                            j
                        } else {
                            j + 1
                        },
                        None => j,
                    };
                    assert(mid[j] == old_notes[j2]);
                    lemma_doc_at(old_notes, j2);
                    assert(mid[j].path@ != p@);
                }
            }
            assert forall|q: Seq<char>| has_path(old_notes, q) implies has_path(v, q) by {
                if q == p@ {
                    assert(v[n].path@ == q);
                } else {
                    let j = choose|j: int| 0 <= j < old_notes.len() && (#[trigger] old_notes[j]).path@ == q;
                    match found {
                        Some(k) => {
                            assert(j != k);
                            let j2 = if j < k {
                                j
                            } else {
                                j - 1
                            };
                            assert(mid[j2] == old_notes[j]);
                            assert(v[j2].path@ == q);
                        },
                        None => {
                            assert(v[j].path@ == q);
                        },
                    }
                }
            }
            assert forall|q: Seq<char>| #[trigger] target.contains_key(q) implies has_path(v, q) by {
                if q == p@ {
                    assert(v[n].path@ == q);
                } else {
                    assert(old_docs.contains_key(q));
                    assert(has_path(old_notes, q));
                }
            }
            assert(v[n].path@ == p@);
            lemma_doc_map_is(v, target);
        }
    }

    /// Records a document with its metadata and the resolved targets of its
    /// links. The document's old edges are replaced by one edge per safe
    /// target; unsafe targets are skipped.
    pub fn index_file(&mut self, path: &str, modified: i64, size: u64, resolved_links: &[String])
        requires
            old(self).wf(),
        ensures
            final(self).wf(),
            final(self).documents() == old(self).documents().insert(
                path@,
                DocMeta { modified_at: modified, size },
            ),
            final(self).edges() == indexed_edges(old(self).edges(), path@, string_views(resolved_links@)),
    {
        let p = path.to_owned();
        let meta = DocMeta { modified_at: modified, size };
        self.remove_links_from(&p);
        let ghost cleared = edge_set(self.links@);
        self.upsert_note(p.clone(), meta);
        let mut i: usize = 0;
        while i < resolved_links.len()
            invariant
                i <= resolved_links.len(),
                unique_paths(self.notes@),
                has_path(self.notes@, p@),
                p@ == path@,
                doc_map(self.notes@) == old(self).documents().insert(path@, meta),
                unique_pairs(self.links@),
                forall|k: int|
                    0 <= k < self.links.len() ==> has_path(
                        self.notes@,
                        (#[trigger] self.links@[k]).0@,
                    ),
                cleared == deleted_edges(old(self).edges(), path@),
                edge_set(self.links@) == cleared.union(
                    Set::new(
                        |e: Edge|
                            e.0 == p@ && safe_targets(string_views(resolved_links@.take(i as int))).contains(e.1),
                    ),
                ),
            decreases resolved_links.len() - i,
        {
            let t = &resolved_links[i];
            let tv = chars_of(t.as_str());
            let ghost before = self.links@;
            let ghost now = string_views(resolved_links@.take(i + 1));
            let ghost pre = string_views(resolved_links@.take(i as int));
            assert(now =~= pre.push(t@));
            assert(safe_targets(now) =~= if safe_target(t@) {
                safe_targets(pre).insert(t@)
            } else {
                safe_targets(pre)
            }) by {
                assert forall|x: Seq<char>| #[trigger] safe_targets(now).contains(x) implies x == t@
                    || safe_targets(pre).contains(x) by {
                    let k = choose|k: int| 0 <= k < now.len() && now[k] == x;
                    if k < i {
                        assert(pre[k] == x);
                    }
                }
                assert forall|x: Seq<char>| #[trigger] safe_targets(pre).contains(x) implies safe_targets(
                    now,
                ).contains(x) by {
                    let k = choose|k: int| 0 <= k < pre.len() && pre[k] == x;
                    assert(now[k] == x);
                }
                if safe_target(t@) {
                    assert(now[i as int] == t@);
                }
            }
            if is_safe_target(&tv) {
                match self.link_index(&p, t) {
                    Some(_) => {},
                    None => {
                        self.links.push((p.clone(), t.clone()));
                        proof {
                            let v = self.links@;
                            let n = v.len() - 1;
                            assert forall|j: int| 0 <= j < n implies #[trigger] v[j] == before[j] by {}
                            assert(pair_view(v[n]) == (p@, t@));
                            assert forall|a: int, b: int|
                                0 <= a < v.len() && 0 <= b < v.len() && a != b implies pair_view(
                                #[trigger] v[a],
                            ) != pair_view(#[trigger] v[b]) by {
                                if a < n && b < n {
                                    assert(v[a] == before[a] && v[b] == before[b]);
                                } else if a < n {
                                    assert(edge_set(before).contains(pair_view(before[a])));
                                } else {
                                    assert(edge_set(before).contains(pair_view(before[b])));
                                }
                            }
                            assert(edge_set(v) =~= edge_set(before).insert((p@, t@))) by {
                                assert forall|e: Edge| #[trigger] edge_set(v).contains(e) implies edge_set(
                                    before,
                                ).insert((p@, t@)).contains(e) by {
                                    let k = choose|k: int| 0 <= k < v.len() && pair_view(#[trigger] v[k]) == e;
                                    if k < n {
                                        assert(v[k] == before[k]);
                                    }
                                }
                                assert forall|e: Edge| #[trigger] edge_set(before).contains(e) implies edge_set(
                                    v,
                                ).contains(e) by {
                                    let k = choose|k: int|
                                        0 <= k < before.len() && pair_view(#[trigger] before[k]) == e;
                                    assert(v[k] == before[k]);
                                }
                                assert(edge_set(v).contains(pair_view(v[n])));
                            }
                            assert forall|k: int| 0 <= k < v.len() implies has_path(
                                self.notes@,
                                (#[trigger] v[k]).0@,
                            ) by {
                                if k < n {
                                    assert(v[k] == before[k]);
                                }
                            }
                        }
                    },
                }
            }
            let ghost grown = Set::new(
                |e: Edge| e.0 == p@ && safe_targets(string_views(resolved_links@.take(i + 1))).contains(e.1),
            );
            assert(edge_set(self.links@) =~= cleared.union(grown));
            i = i + 1;
        }
        proof {
            assert(resolved_links@.take(resolved_links@.len() as int) == resolved_links@);
            assert(edge_set(self.links@) =~= indexed_edges(
                old(self).edges(),
                path@,
                string_views(resolved_links@),
            ));
        }
    }

    /// Removes the row at `k`.
    fn remove_note(&mut self, k: usize)
        requires
            unique_paths(old(self).notes@),
            k < old(self).notes.len(),
        ensures
            unique_paths(final(self).notes@),
            final(self).links@ == old(self).links@,
            final(self).notes@ == old(self).notes@.remove(k as int),
            doc_map(final(self).notes@) == doc_map(old(self).notes@).remove(
                old(self).notes@[k as int].path@,
            ),
            forall|q: Seq<char>|
                has_path(old(self).notes@, q) && q != old(self).notes@[k as int].path@ ==> has_path(
                    final(self).notes@,
                    q,
                ),
    {
        let ghost before = self.notes@;
        let ghost gone = before[k as int].path@;
        self.notes.remove(k);
        proof {
            let v = self.notes@;
            assert forall|j: int| 0 <= j < v.len() implies #[trigger] v[j] == before[if j < k {
                j
            } else {
                j + 1
            }] by {}
            assert(unique_paths(v)) by {
                assert forall|a: int, b: int|
                    0 <= a < v.len() && 0 <= b < v.len() && a != b implies (#[trigger] v[a]).path@
                    != (#[trigger] v[b]).path@ by {
                    let a2 = if a < k {
                        a
                    } else {
                        a + 1
                    };
                    let b2 = if b < k {
                        b
                    } else {
                        b + 1
                    };
                    assert(v[a] == before[a2] && v[b] == before[b2]);
                }
            }
            let target = doc_map(before).remove(gone);
            assert forall|j: int| 0 <= j < v.len() implies target.contains_key(
                (#[trigger] v[j]).path@,
            ) && target[v[j].path@] == v[j].meta by {
                let j2 = if j < k {
                    j
                } else {
                    j + 1
                };
                assert(v[j] == before[j2]);
                lemma_doc_at(before, j2);
                assert(before[j2].path@ != gone);
            }
            assert forall|q: Seq<char>| has_path(before, q) && q != gone implies has_path(v, q) by {
                let j = choose|j: int| 0 <= j < before.len() && (#[trigger] before[j]).path@ == q;
                assert(j != k);
                let j2 = if j < k {
                    j
                } else {
                    j - 1
                };
                assert(v[j2] == before[j]);
            }
            assert forall|q: Seq<char>| #[trigger] target.contains_key(q) implies has_path(v, q) by {
                assert(doc_map(before).contains_key(q));
            }
            lemma_doc_map_is(v, target);
        }
    }

    /// What the store records of the document at `path`, if it has one.
    pub fn document(&self, path: &str) -> (r: Option<DocMeta>)
        requires
            self.wf(),
        ensures
            match r {
                Some(m) => self.documents().contains_key(path@) && self.documents()[path@] == m,
                None => !self.documents().contains_key(path@),
            },
    {
        let p = path.to_owned();
        match self.note_index(&p) {
            Some(k) => {
                proof {
                    lemma_doc_at(self.notes@, k as int);
                }
                Some(self.notes[k].meta)
            },
            None => None,
        }
    }

    /// Deletes the document at `path` and the edges it is the source of;
    /// edges that point at it stay. Tells whether there was such a document.
    pub fn delete_file(&mut self, path: &str) -> (r: bool)
        requires
            old(self).wf(),
        ensures
            final(self).wf(),
            r == old(self).documents().contains_key(path@),
            final(self).documents() == old(self).documents().remove(path@),
            final(self).edges() == deleted_edges(old(self).edges(), path@),
    {
        let p = path.to_owned();
        self.remove_links_from(&p);
        match self.note_index(&p) {
            Some(k) => {
                self.remove_note(k);
                proof {
                    assert forall|j: int| 0 <= j < self.links.len() implies has_path(
                        self.notes@,
                        (#[trigger] self.links@[j]).0@,
                    ) by {
                        assert(edge_set(self.links@).contains(pair_view(self.links@[j])));
                    }
                }
                true
            },
            None => {
                assert(self.documents() =~= old(self).documents().remove(path@));
                false
            },
        }
    }

    /// Deletes each document of `paths` with the edges it is the source of.
    /// Returns how many documents were actually removed.
    pub fn batch_delete_files(&mut self, paths: &[String]) -> (r: usize)
        requires
            old(self).wf(),
        ensures
            final(self).wf(),
            r == removed_count(old(self).documents(), string_views(paths@)),
            final(self).documents() == docs_without(old(self).documents(), string_views(paths@)),
            final(self).edges() == edges_without(old(self).edges(), string_views(paths@)),
    {
        let mut n: usize = 0;
        let mut i: usize = 0;
        while i < paths.len()
            invariant
                i <= paths.len(),
                self.wf(),
                n <= i,
                n == removed_count(old(self).documents(), string_views(paths@).take(i as int)),
                self.documents() == docs_without(
                    old(self).documents(),
                    string_views(paths@).take(i as int),
                ),
                self.edges() == edges_without(old(self).edges(), string_views(paths@).take(i as int)),
            decreases paths.len() - i,
        {
            let ghost pre = string_views(paths@).take(i as int);
            let ghost now = string_views(paths@).take(i + 1);
            let ghost q = paths@[i as int]@;
            assert(now.drop_last() == pre);
            assert(now.last() == q);
            assert(now.to_set() =~= pre.to_set().insert(q)) by {
                assert forall|x: Seq<char>| #[trigger] now.to_set().contains(x) implies pre.to_set().insert(
                    q,
                ).contains(x) by {
                    let k = choose|k: int| 0 <= k < now.len() && now[k] == x;
                    if k < i {
                        assert(pre[k] == x);
                    }
                }
                assert forall|x: Seq<char>| #[trigger] pre.to_set().contains(x) implies now.to_set().contains(
                    x,
                ) by {
                    let k = choose|k: int| 0 <= k < pre.len() && pre[k] == x;
                    assert(now[k] == x);
                }
                assert(now[i as int] == q);
            }
            let removed = self.delete_file(paths[i].as_str());
            proof {
                assert(removed == (old(self).documents().contains_key(q) && !pre.contains(q))) by {
                    if pre.contains(q) {
                        assert(pre.to_set().contains(q));
                    }
                    if !pre.contains(q) {
                        assert(!pre.to_set().contains(q));
                    }
                }
                assert(self.documents() =~= docs_without(old(self).documents(), now));
                assert(self.edges() =~= edges_without(old(self).edges(), now)) by {
                    assert forall|e: Edge| pre.contains(e.0) || e.0 == q <==> #[trigger] now.contains(e.0) by {
                        if pre.contains(e.0) {
                            let k = choose|k: int| 0 <= k < pre.len() && pre[k] == e.0;
                            assert(now[k] == e.0);
                        }
                        if now.contains(e.0) {
                            let k = choose|k: int| 0 <= k < now.len() && now[k] == e.0;
                            if k < i {
                                assert(pre[k] == e.0);
                            }
                        }
                        if e.0 == q {
                            assert(now[i as int] == q);
                        }
                    }
                }
            }
            if removed {
                n = n + 1;
            }
            i = i + 1;
        }
        assert(string_views(paths@).take(paths.len() as int) == string_views(paths@));
        n
    }

    /// The paths that `source_path` links to, each once.
    pub fn get_outgoing_links(&self, source_path: &str) -> (r: Vec<String>)
        requires
            self.wf(),
        ensures
            string_views(r@).to_set() == outgoing(self.edges(), source_path@),
            string_views(r@).no_duplicates(),
    {
        let src = source_path.to_owned();
        let mut r: Vec<String> = Vec::new();
        let ghost mut idx: Seq<int> = seq![];
        let mut i: usize = 0;
        while i < self.links.len()
            invariant
                i <= self.links.len(),
                self.wf(),
                src@ == source_path@,
                idx.len() == r.len(),
                forall|j: int|
                    0 <= j < r.len() ==> 0 <= #[trigger] idx[j] < i && self.links@[idx[j]].0@
                        == src@ && self.links@[idx[j]].1@ == r@[j]@,
                forall|a: int, b: int| 0 <= a < b < r.len() ==> #[trigger] idx[a] < #[trigger] idx[b],
                forall|k: int|
                    0 <= k < i && (#[trigger] self.links@[k]).0@ == src@ ==> exists|j: int|
                        0 <= j < r.len() && idx[j] == k,
            decreases self.links.len() - i,
        {
            let ghost old_idx = idx;
            if self.links[i].0 == src {
                r.push(self.links[i].1.clone());
                proof {
                    idx = idx.push(i as int);
                }
            }
            proof {
                assert forall|k: int|
                    0 <= k < i + 1 && (#[trigger] self.links@[k]).0@ == src@ implies exists|j: int|
                    0 <= j < r.len() && idx[j] == k by {
                    if k == i {
                        assert(idx[r.len() - 1] == k);
                    } else {
                        let j = choose|j: int| 0 <= j < old_idx.len() && old_idx[j] == k;
                        assert(idx[j] == k);
                    }
                }
            }
            i = i + 1;
        }
        proof {
            let sv = string_views(r@);
            assert(sv.to_set() =~= outgoing(self.edges(), source_path@)) by {
                assert forall|t: Seq<char>| #[trigger] sv.to_set().contains(t) implies outgoing(
                    self.edges(),
                    source_path@,
                ).contains(t) by {
                    let j = choose|j: int| 0 <= j < sv.len() && sv[j] == t;
                    assert(pair_view(self.links@[idx[j]]) == (source_path@, t));
                }
                assert forall|t: Seq<char>| #[trigger] outgoing(self.edges(), source_path@).contains(
                    t,
                ) implies sv.to_set().contains(t) by {
                    assert(self.edges().contains((source_path@, t)));
                    let k = choose|k: int|
                        0 <= k < self.links.len() && pair_view(#[trigger] self.links@[k]) == (
                        source_path@,
                        t,
                        );
                    let j = choose|j: int| 0 <= j < r.len() && idx[j] == k;
                    assert(sv[j] == t);
                }
            }
            assert forall|a: int, b: int| 0 <= a < sv.len() && 0 <= b < sv.len() && a != b implies sv[a]
                != sv[b] by {
                if a < b {
                    assert(idx[a] < idx[b]);
                } else {
                    assert(idx[b] < idx[a]);
                }
                assert(pair_view(self.links@[idx[a]]) != pair_view(self.links@[idx[b]]));
            }
        }
        r
    }

    /// The paths that link to `target_path`, each once.
    pub fn get_backlinks(&self, target_path: &str) -> (r: Vec<String>)
        requires
            self.wf(),
        ensures
            string_views(r@).to_set() == incoming(self.edges(), target_path@),
            string_views(r@).no_duplicates(),
    {
        let tgt = target_path.to_owned();
        let mut r: Vec<String> = Vec::new();
        let ghost mut idx: Seq<int> = seq![];
        let mut i: usize = 0;
        while i < self.links.len()
            invariant
                i <= self.links.len(),
                self.wf(),
                tgt@ == target_path@,
                idx.len() == r.len(),
                forall|j: int|
                    0 <= j < r.len() ==> 0 <= #[trigger] idx[j] < i && self.links@[idx[j]].1@
                        == tgt@ && self.links@[idx[j]].0@ == r@[j]@,
                forall|a: int, b: int| 0 <= a < b < r.len() ==> #[trigger] idx[a] < #[trigger] idx[b],
                forall|k: int|
                    0 <= k < i && (#[trigger] self.links@[k]).1@ == tgt@ ==> exists|j: int|
                        0 <= j < r.len() && idx[j] == k,
            decreases self.links.len() - i,
        {
            let ghost old_idx = idx;
            if self.links[i].1 == tgt {
                r.push(self.links[i].0.clone());
                proof {
                    idx = idx.push(i as int);
                }
            }
            proof {
                assert forall|k: int|
                    0 <= k < i + 1 && (#[trigger] self.links@[k]).1@ == tgt@ implies exists|j: int|
                    0 <= j < r.len() && idx[j] == k by {
                    if k == i {
                        assert(idx[r.len() - 1] == k);
                    } else {
                        let j = choose|j: int| 0 <= j < old_idx.len() && old_idx[j] == k;
                        assert(idx[j] == k);
                    }
                }
            }
            i = i + 1;
        }
        proof {
            let sv = string_views(r@);
            assert(sv.to_set() =~= incoming(self.edges(), target_path@)) by {
                assert forall|t: Seq<char>| #[trigger] sv.to_set().contains(t) implies incoming(
                    self.edges(),
                    target_path@,
                ).contains(t) by {
                    let j = choose|j: int| 0 <= j < sv.len() && sv[j] == t;
                    assert(pair_view(self.links@[idx[j]]) == (t, target_path@));
                }
                assert forall|t: Seq<char>| #[trigger] incoming(self.edges(), target_path@).contains(
                    t,
                ) implies sv.to_set().contains(t) by {
                    assert(self.edges().contains((t, target_path@)));
                    let k = choose|k: int|
                        0 <= k < self.links.len() && pair_view(#[trigger] self.links@[k]) == (
                        t,
                        target_path@,
                        );
                    let j = choose|j: int| 0 <= j < r.len() && idx[j] == k;
                    assert(sv[j] == t);
                }
            }
            assert forall|a: int, b: int| 0 <= a < sv.len() && 0 <= b < sv.len() && a != b implies sv[a]
                != sv[b] by {
                if a < b {
                    assert(idx[a] < idx[b]);
                } else {
                    assert(idx[b] < idx[a]);
                }
                assert(pair_view(self.links@[idx[a]]) != pair_view(self.links@[idx[b]]));
            }
        }
        r
    }

    /// Every edge, each once.
    pub fn get_all_links(&self) -> (r: Vec<(String, String)>)
        requires
            self.wf(),
        ensures
            pair_views(r@).to_set() == self.edges(),
            pair_views(r@).no_duplicates(),
    {
        let mut r: Vec<(String, String)> = Vec::new();
        let mut i: usize = 0;
        while i < self.links.len()
            invariant
                i <= self.links.len(),
                self.wf(),
                r.len() == i,
                pair_views(r@) == pair_views(self.links@.take(i as int)),
            decreases self.links.len() - i,
        {
            let l = &self.links[i];
            let ghost before = r@;
            r.push((l.0.clone(), l.1.clone()));
            assert(self.links@.take(i + 1) == self.links@.take(i as int).push(*l));
            assert(r@ == before.push(r@[i as int]));
            assert(pair_view(r@[i as int]) == pair_view(*l));
            assert forall|k: int| 0 <= k < i + 1 implies pair_views(r@)[k] == pair_views(
                self.links@.take(i + 1),
            )[k] by {
                if k < i {
                    assert(r@[k] == before[k]);
                    assert(pair_views(before)[k] == pair_views(self.links@.take(i as int))[k]);
                }
            }
            assert(pair_views(r@) =~= pair_views(self.links@.take(i + 1)));
            i = i + 1;
        }
        proof {
            assert(self.links@.take(self.links.len() as int) == self.links@);
            let pv = pair_views(r@);
            assert(pv.to_set() =~= self.edges()) by {
                assert forall|e: Edge| #[trigger] pv.to_set().contains(e) implies self.edges().contains(
                    e,
                ) by {
                    let k = choose|k: int| 0 <= k < pv.len() && pv[k] == e;
                    assert(pair_view(self.links@[k]) == e);
                }
                assert forall|e: Edge| #[trigger] self.edges().contains(e) implies pv.to_set().contains(
                    e,
                ) by {
                    let k = choose|k: int|
                        0 <= k < self.links.len() && pair_view(#[trigger] self.links@[k]) == e;
                    assert(pv[k] == e);
                }
            }
            assert forall|a: int, b: int| 0 <= a < pv.len() && 0 <= b < pv.len() && a != b implies pv[a]
                != pv[b] by {
                assert(pair_view(self.links@[a]) != pair_view(self.links@[b]));
            }
        }
        r
    }

    /// Every document with its modification time, each once.
    pub fn get_all_indexed_files(&self) -> (r: Vec<(String, i64)>)
        requires
            self.wf(),
        ensures
            forall|k: int|
                0 <= k < r.len() ==> self.documents().contains_key((#[trigger] r@[k]).0@)
                    && self.documents()[r@[k].0@].modified_at == r@[k].1,
            forall|p: Seq<char>|
                #[trigger] self.documents().contains_key(p) ==> exists|k: int|
                    0 <= k < r.len() && r@[k].0@ == p,
            forall|a: int, b: int|
                0 <= a < r.len() && 0 <= b < r.len() && a != b ==> (#[trigger] r@[a]).0@ != (
                #[trigger] r@[b]).0@,
    {
        let mut r: Vec<(String, i64)> = Vec::new();
        let mut i: usize = 0;
        while i < self.notes.len()
            invariant
                i <= self.notes.len(),
                self.wf(),
                r.len() == i,
                forall|k: int|
                    0 <= k < i ==> (#[trigger] r@[k]).0@ == self.notes@[k].path@ && r@[k].1
                        == self.notes@[k].meta.modified_at,
            decreases self.notes.len() - i,
        {
            let n = &self.notes[i];
            r.push((n.path.clone(), n.meta.modified_at));
            i = i + 1;
        }
        proof {
            assert forall|k: int| 0 <= k < r.len() implies self.documents().contains_key(
                (#[trigger] r@[k]).0@,
            ) && self.documents()[r@[k].0@].modified_at == r@[k].1 by {
                lemma_doc_at(self.notes@, k);
            }
            assert forall|p: Seq<char>| #[trigger] self.documents().contains_key(p) implies exists|
                k: int,
            | 0 <= k < r.len() && r@[k].0@ == p by {
                let k = choose|k: int| 0 <= k < self.notes.len() && (#[trigger] self.notes@[k]).path@ == p;
                assert(r@[k].0@ == p);
            }
            assert forall|a: int, b: int|
                0 <= a < r.len() && 0 <= b < r.len() && a != b implies (#[trigger] r@[a]).0@ != (
                #[trigger] r@[b]).0@ by {
                assert(self.notes@[a].path@ != self.notes@[b].path@);
            }
        }
        r
    }

    /// Documents with neither incoming nor outgoing edges, each once.
    pub fn get_orphaned_files(&self) -> (r: Vec<String>)
        requires
            self.wf(),
        ensures
            string_views(r@).to_set() == orphans(self.documents(), self.edges()),
            string_views(r@).no_duplicates(),
    {
        let mut r: Vec<String> = Vec::new();
        let ghost mut idx: Seq<int> = seq![];
        let mut i: usize = 0;
        while i < self.notes.len()
            invariant
                i <= self.notes.len(),
                self.wf(),
                idx.len() == r.len(),
                forall|j: int|
                    0 <= j < r.len() ==> 0 <= #[trigger] idx[j] < i && self.notes@[idx[j]].path@
                        == r@[j]@ && orphans(self.documents(), self.edges()).contains(r@[j]@),
                forall|a: int, b: int| 0 <= a < b < r.len() ==> #[trigger] idx[a] < #[trigger] idx[b],
                forall|k: int|
                    0 <= k < i && orphans(self.documents(), self.edges()).contains(
                        (#[trigger] self.notes@[k]).path@,
                    ) ==> exists|j: int| 0 <= j < r.len() && idx[j] == k,
            decreases self.notes.len() - i,
        {
            let p = &self.notes[i].path;
            let mut linked = false;
            let mut k: usize = 0;
            while k < self.links.len()
                invariant
                    k <= self.links.len(),
                    i < self.notes.len(),
                    *p == self.notes@[i as int].path,
                    linked <==> exists|m: int|
                        0 <= m < k && ((#[trigger] self.links@[m]).0@ == p@ || self.links@[m].1@
                            == p@),
                decreases self.links.len() - k,
            {
                if self.links[k].0 == *p || self.links[k].1 == *p {
                    linked = true;
                }
                k = k + 1;
            }
            proof {
                lemma_doc_at(self.notes@, i as int);
                let o = orphans(self.documents(), self.edges());
                if linked {
                    let m = choose|m: int|
                        0 <= m < self.links.len() && ((#[trigger] self.links@[m]).0@ == p@
                            || self.links@[m].1@ == p@);
                    let e = pair_view(self.links@[m]);
                    assert(self.edges().contains(e));
                    if e.0 == p@ {
                        assert(outgoing(self.edges(), p@).contains(e.1));
                    } else {
                        assert(incoming(self.edges(), p@).contains(e.0));
                    }
                    assert(!o.contains(p@));
                } else {
                    assert forall|t: Seq<char>| !outgoing(self.edges(), p@).contains(t) by {
                        if self.edges().contains((p@, t)) {
                            let m = choose|m: int|
                                0 <= m < self.links.len() && pair_view(#[trigger] self.links@[m])
                                    == (p@, t);
                        }
                    }
                    assert forall|t: Seq<char>| !incoming(self.edges(), p@).contains(t) by {
                        if self.edges().contains((t, p@)) {
                            let m = choose|m: int|
                                0 <= m < self.links.len() && pair_view(#[trigger] self.links@[m])
                                    == (t, p@);
                        }
                    }
                    assert(outgoing(self.edges(), p@) =~= Set::empty());
                    assert(incoming(self.edges(), p@) =~= Set::empty());
                    assert(o.contains(p@));
                }
            }
            let ghost old_idx = idx;
            if !linked {
                r.push(p.clone());
                proof {
                    idx = idx.push(i as int);
                }
            }
            proof {
                assert forall|k: int|
                    0 <= k < i + 1 && orphans(self.documents(), self.edges()).contains(
                        (#[trigger] self.notes@[k]).path@,
                    ) implies exists|j: int| 0 <= j < r.len() && idx[j] == k by {
                    if k == i {
                        assert(idx[r.len() - 1] == k);
                    } else {
                        let j = choose|j: int| 0 <= j < old_idx.len() && old_idx[j] == k;
                        assert(idx[j] == k);
                    }
                }
            }
            i = i + 1;
        }
        proof {
            let sv = string_views(r@);
            let o = orphans(self.documents(), self.edges());
            assert(sv.to_set() =~= o) by {
                assert forall|p: Seq<char>| #[trigger] sv.to_set().contains(p) implies o.contains(p) by {
                    let j = choose|j: int| 0 <= j < sv.len() && sv[j] == p;
                    assert(sv[j] == r@[j]@);
                    assert(0 <= idx[j] < self.notes.len());
                    assert(o.contains(r@[j]@));
                }
                assert forall|p: Seq<char>| #[trigger] o.contains(p) implies sv.to_set().contains(p) by {
                    let k = choose|k: int| 0 <= k < self.notes.len() && (#[trigger] self.notes@[k]).path@ == p;
                    let j = choose|j: int| 0 <= j < r.len() && idx[j] == k;
                    assert(sv[j] == p);
                }
            }
            assert forall|a: int, b: int| 0 <= a < sv.len() && 0 <= b < sv.len() && a != b implies sv[a]
                != sv[b] by {
                if a < b {
                    assert(idx[a] < idx[b]);
                } else {
                    assert(idx[b] < idx[a]);
                }
                assert(self.notes@[idx[a]].path@ != self.notes@[idx[b]].path@);
            }
        }
        r
    }

    /// Edges whose target is not a document, each once.
    pub fn get_broken_links(&self) -> (r: Vec<(String, String)>)
        requires
            self.wf(),
        ensures
            pair_views(r@).to_set() == broken(self.documents(), self.edges()),
            pair_views(r@).no_duplicates(),
    {
        let mut r: Vec<(String, String)> = Vec::new();
        let ghost mut idx: Seq<int> = seq![];
        let mut i: usize = 0;
        while i < self.links.len()
            invariant
                i <= self.links.len(),
                self.wf(),
                idx.len() == r.len(),
                forall|j: int|
                    0 <= j < r.len() ==> 0 <= #[trigger] idx[j] < i && pair_view(self.links@[idx[j]])
                        == pair_view(r@[j]) && !self.documents().contains_key(r@[j].1@),
                forall|a: int, b: int| 0 <= a < b < r.len() ==> #[trigger] idx[a] < #[trigger] idx[b],
                forall|k: int|
                    0 <= k < i && !self.documents().contains_key((#[trigger] self.links@[k]).1@)
                        ==> exists|j: int| 0 <= j < r.len() && idx[j] == k,
            decreases self.links.len() - i,
        {
            let l = &self.links[i];
            let ghost old_idx = idx;
            let found = self.note_index(&l.1);
            if found.is_none() {
                r.push((l.0.clone(), l.1.clone()));
                proof {
                    idx = idx.push(i as int);
                }
            } else {
                proof {
                    let k = found->0 as int;
                    lemma_doc_at(self.notes@, k);
                }
            }
            proof {
                assert forall|k: int|
                    0 <= k < i + 1 && !self.documents().contains_key((#[trigger] self.links@[k]).1@)
                        implies exists|j: int| 0 <= j < r.len() && idx[j] == k by {
                    if k == i {
                        assert(idx[r.len() - 1] == k);
                    } else {
                        let j = choose|j: int| 0 <= j < old_idx.len() && old_idx[j] == k;
                        assert(idx[j] == k);
                    }
                }
            }
            i = i + 1;
        }
        proof {
            let pv = pair_views(r@);
            let b = broken(self.documents(), self.edges());
            assert(pv.to_set() =~= b) by {
                assert forall|e: Edge| #[trigger] pv.to_set().contains(e) implies b.contains(e) by {
                    let j = choose|j: int| 0 <= j < pv.len() && pv[j] == e;
                    assert(self.edges().contains(pair_view(self.links@[idx[j]])));
                }
                assert forall|e: Edge| #[trigger] b.contains(e) implies pv.to_set().contains(e) by {
                    let k = choose|k: int|
                        0 <= k < self.links.len() && pair_view(#[trigger] self.links@[k]) == e;
                    let j = choose|j: int| 0 <= j < r.len() && idx[j] == k;
                    assert(pv[j] == e);
                }
            }
            assert forall|a: int, c: int| 0 <= a < pv.len() && 0 <= c < pv.len() && a != c implies pv[a]
                != pv[c] by {
                if a < c {
                    assert(idx[a] < idx[c]);
                } else {
                    assert(idx[c] < idx[a]);
                }
                assert(pair_view(self.links@[idx[a]]) != pair_view(self.links@[idx[c]]));
            }
        }
        r
    }

    /// Renames the document at `old_path` to `new_path`, as a document and in
    /// every edge where it is the source or the target. Refused, with nothing
    /// changed, when `new_path` is not a safe target, or when another
    /// document already has it.
    pub fn update_file_path(&mut self, old_path: &str, new_path: &str) -> (r: Result<(), StoreError>)
        requires
            old(self).wf(),
        ensures
            final(self).wf(),
            r == Err::<(), StoreError>(StoreError::UnsafePath) <==> !safe_target(new_path@),
            r == Err::<(), StoreError>(StoreError::PathTaken) <==> safe_target(new_path@)
                && rename_collides(old(self).documents(), old_path@, new_path@),
            r is Err <==> !safe_target(new_path@) || rename_collides(
                old(self).documents(),
                old_path@,
                new_path@,
            ),
            r is Err ==> final(self).documents() == old(self).documents() && final(self).edges()
                == old(self).edges(),
            r is Ok ==> final(self).documents() == renamed_docs(
                old(self).documents(),
                old_path@,
                new_path@,
            ) && final(self).edges() == renamed_edges(old(self).edges(), old_path@, new_path@),
    {
        let tv = chars_of(new_path);
        if !is_safe_target(&tv) {
            return Err(StoreError::UnsafePath);
        }
        let from = old_path.to_owned();
        let to = new_path.to_owned();
        if from == to {
            proof {
                let docs = old(self).documents();
                if docs.contains_key(from@) {
                    assert(docs.remove(from@).insert(to@, docs[from@]) =~= docs);
                }
                assert(renamed_edges(old(self).edges(), from@, to@) =~= old(self).edges()) by {
                    assert forall|e: Edge| #[trigger] old(self).edges().contains(e) implies renamed_edges(
                        old(self).edges(),
                        from@,
                        to@,
                    ).contains(e) by {
                        assert(rename_edge(e, from@, to@) == e);
                    }
                }
            }
            return Ok(());
        }
        let ghost old_notes = self.notes@;
        let found = self.note_index(&from);
        match found {
            Some(k) => {
                if self.note_index(&to).is_some() {
                    proof {
                        lemma_doc_at(old_notes, k as int);
                        let j = choose|j: int|
                            0 <= j < old_notes.len() && (#[trigger] old_notes[j]).path@ == to@;
                        lemma_doc_at(old_notes, j);
                    }
                    return Err(StoreError::PathTaken);
                }
                let meta = self.notes[k].meta;
                proof {
                    lemma_doc_at(old_notes, k as int);
                }
                self.remove_note(k);
                self.upsert_note(to.clone(), meta);
            },
            None => {},
        }
        proof {
            assert(self.documents() == renamed_docs(old(self).documents(), from@, to@));
            assert(!rename_collides(old(self).documents(), from@, to@));
        }
        let mut fresh: Vec<(String, String)> = Vec::new();
        let mut i: usize = 0;
        while i < self.links.len()
            invariant
                i <= self.links.len(),
                from@ == old_path@,
                to@ == new_path@,
                self.links@ == old(self).links@,
                unique_paths(self.notes@),
                unique_pairs(old(self).links@),
                forall|k: int|
                    0 <= k < old(self).links.len() ==> has_path(
                        old_notes,
                        (#[trigger] old(self).links@[k]).0@,
                    ),
                old_notes == old(self).notes@,
                forall|q: Seq<char>| has_path(old_notes, q) && q != from@ ==> has_path(self.notes@, q),
                has_path(old_notes, from@) ==> has_path(self.notes@, to@),
                unique_pairs(fresh@),
                forall|k: int|
                    0 <= k < fresh.len() ==> has_path(self.notes@, (#[trigger] fresh@[k]).0@),
                edge_set(fresh@) == Set::new(
                    |e: Edge|
                        exists|j: int|
                            0 <= j < i && rename_edge(pair_view(#[trigger] self.links@[j]), from@, to@) == e,
                ),
            decreases self.links.len() - i,
        {
            let l = &self.links[i];
            let a = if l.0 == from {
                to.clone()
            } else {
                l.0.clone()
            };
            let b = if l.1 == from {
                to.clone()
            } else {
                l.1.clone()
            };
            assert((a@, b@) == rename_edge(pair_view(*l), from@, to@));
            let ghost before = fresh@;
            let ghost seen = Set::new(
                |e: Edge| exists|j: int| 0 <= j < i && rename_edge(pair_view(#[trigger] self.links@[j]), from@, to@) == e,
            );
            let ghost seen2 = Set::new(
                |e: Edge| exists|j: int| 0 <= j < i + 1 && rename_edge(pair_view(#[trigger] self.links@[j]), from@, to@) == e,
            );
            assert(seen2 =~= seen.insert((a@, b@))) by {
                assert forall|e: Edge| #[trigger] seen2.contains(e) implies seen.insert((a@, b@)).contains(
                    e,
                ) by {
                    let j = choose|j: int| 0 <= j < i + 1 && rename_edge(pair_view(#[trigger] self.links@[j]), from@, to@) == e;
                    if j < i {
                        assert(seen.contains(e));
                    }
                }
                assert forall|e: Edge| #[trigger] seen.contains(e) implies seen2.contains(e) by {
                    let j = choose|j: int| 0 <= j < i && rename_edge(pair_view(#[trigger] self.links@[j]), from@, to@) == e;
                }
                assert(rename_edge(pair_view(self.links@[i as int]), from@, to@) == (a@, b@));
            }
            let mut present = false;
            let mut k: usize = 0;
            while k < fresh.len()
                invariant
                    k <= fresh.len(),
                    present <==> exists|m: int| 0 <= m < k && pair_view(#[trigger] fresh@[m]) == (a@, b@),
                decreases fresh.len() - k,
            {
                if fresh[k].0 == a && fresh[k].1 == b {
                    present = true;
                }
                k = k + 1;
            }
            if !present {
                proof {
                    assert(has_path(old_notes, l.0@)) by {
                        assert(has_path(old_notes, old(self).links@[i as int].0@));
                    }
                }
                fresh.push((a, b));
                proof {
                    let v = fresh@;
                    let n = v.len() - 1;
                    assert forall|j: int| 0 <= j < n implies #[trigger] v[j] == before[j] by {}
                    assert forall|x: int, y: int|
                        0 <= x < v.len() && 0 <= y < v.len() && x != y implies pair_view(
                        #[trigger] v[x],
                    ) != pair_view(#[trigger] v[y]) by {
                        if x < n && y < n {
                            assert(v[x] == before[x] && v[y] == before[y]);
                        }
                    }
                    assert(edge_set(v) =~= edge_set(before).insert(pair_view(v[n]))) by {
                        assert forall|e: Edge| #[trigger] edge_set(v).contains(e) implies edge_set(
                            before,
                        ).insert(pair_view(v[n])).contains(e) by {
                            let j = choose|j: int| 0 <= j < v.len() && pair_view(#[trigger] v[j]) == e;
                            if j < n {
                                assert(v[j] == before[j]);
                            }
                        }
                        assert forall|e: Edge| #[trigger] edge_set(before).contains(e) implies edge_set(
                            v,
                        ).contains(e) by {
                            let j = choose|j: int| 0 <= j < before.len() && pair_view(#[trigger] before[j]) == e;
                            assert(v[j] == before[j]);
                        }
                        assert(edge_set(v).contains(pair_view(v[n])));
                    }
                    assert forall|j: int| 0 <= j < v.len() implies has_path(
                        self.notes@,
                        (#[trigger] v[j]).0@,
                    ) by {
                        if j < n {
                            assert(v[j] == before[j]);
                        }
                    }
                }
            } else {
                proof {
                    let m = choose|m: int| 0 <= m < fresh.len() && pair_view(#[trigger] fresh@[m]) == (a@, b@);
                    assert(edge_set(fresh@).contains((a@, b@)));
                    assert(edge_set(fresh@) =~= seen2);
                }
            }
            i = i + 1;
        }
        self.links = fresh;
        proof {
            let e0 = old(self).edges();
            let seen = Set::new(
                |e: Edge| exists|j: int| 0 <= j < old(self).links.len() && rename_edge(pair_view(#[trigger] old(self).links@[j]), from@, to@) == e,
            );
            assert(seen =~= renamed_edges(e0, from@, to@)) by {
                assert forall|e: Edge| #[trigger] seen.contains(e) implies renamed_edges(e0, from@, to@).contains(e) by {
                    let j = choose|j: int| 0 <= j < old(self).links.len() && rename_edge(pair_view(#[trigger] old(self).links@[j]), from@, to@) == e;
                    assert(e0.contains(pair_view(old(self).links@[j])));
                }
                assert forall|e: Edge| #[trigger] renamed_edges(e0, from@, to@).contains(e) implies seen.contains(e) by {
                    let x = choose|x: Edge| e0.contains(x) && rename_edge(x, from@, to@) == e;
                    let j = choose|j: int| 0 <= j < old(self).links.len() && pair_view(#[trigger] old(self).links@[j]) == x;
                }
            }
        }
        Ok(())
    }
}

/// Indexing a document twice leaves exactly the edges of the second call from
/// it, with nothing left over from the first; edges from other documents are
/// untouched.
pub proof fn lemma_index_replaces(
    edges: Set<Edge>,
    path: Seq<char>,
    first: Seq<Seq<char>>,
    second: Seq<Seq<char>>,
)
    ensures
        outgoing(indexed_edges(indexed_edges(edges, path, first), path, second), path)
            == safe_targets(second),
        forall|e: Edge|
            e.0 != path ==> (#[trigger] indexed_edges(
                indexed_edges(edges, path, first),
                path,
                second,
            ).contains(e) <==> edges.contains(e)),
{
    assert(outgoing(indexed_edges(indexed_edges(edges, path, first), path, second), path)
        =~= safe_targets(second));
}

/// Deleting a document removes every edge it is the source of; an edge from
/// another document that pointed at it stays, and is reported as broken.
pub proof fn lemma_delete_leaves_broken(
    docs: Map<Seq<char>, DocMeta>,
    edges: Set<Edge>,
    path: Seq<char>,
)
    ensures
        outgoing(deleted_edges(edges, path), path) == Set::<Seq<char>>::empty(),
        forall|s: Seq<char>|
            s != path && #[trigger] edges.contains((s, path)) ==> deleted_edges(edges, path).contains(
                (s, path),
            ) && broken(docs.remove(path), deleted_edges(edges, path)).contains((s, path)),
{
    assert(outgoing(deleted_edges(edges, path), path) =~= Set::<Seq<char>>::empty());
}

/// Renaming a document keeps the shape of the graph: the new path links to
/// what the old path linked to, every edge that pointed at the old path now
/// points at the new one, and none points at the old path any more. A
/// document that links to itself is left out: its own edge turns into one
/// from the new path to the new path.
pub proof fn lemma_rename_keeps_shape(
    docs: Map<Seq<char>, DocMeta>,
    edges: Set<Edge>,
    from: Seq<char>,
    to: Seq<char>,
)
    requires
        sources_are_documents(docs, edges),
        docs.contains_key(from),
        !docs.contains_key(to),
        !edges.contains((from, from)),
    ensures
        outgoing(renamed_edges(edges, from, to), to) == outgoing(edges, from),
        forall|s: Seq<char>|
            #[trigger] edges.contains((s, from)) ==> renamed_edges(edges, from, to).contains(
                (renamed(s, from, to), to),
            ),
        incoming(renamed_edges(edges, from, to), from) == Set::<Seq<char>>::empty(),
{
    let e2 = renamed_edges(edges, from, to);
    assert forall|t: Seq<char>| #[trigger] outgoing(e2, to).contains(t) implies outgoing(
        edges,
        from,
    ).contains(t) by {
        let x = choose|x: Edge| edges.contains(x) && rename_edge(x, from, to) == (to, t);
        assert(docs.contains_key(x.0));
    }
    assert forall|t: Seq<char>| #[trigger] outgoing(edges, from).contains(t) implies outgoing(
        e2,
        to,
    ).contains(t) by {
        assert(rename_edge((from, t), from, to) == (to, t));
    }
    assert(outgoing(e2, to) =~= outgoing(edges, from));
    assert forall|s: Seq<char>| #[trigger] edges.contains((s, from)) implies e2.contains(
        (renamed(s, from, to), to),
    ) by {
        assert(rename_edge((s, from), from, to) == (renamed(s, from, to), to));
    }
    assert forall|s: Seq<char>| !(#[trigger] incoming(e2, from).contains(s)) by {
        if e2.contains((s, from)) {
            let x = choose|x: Edge| edges.contains(x) && rename_edge(x, from, to) == (s, from);
        }
    }
    assert(incoming(e2, from) =~= Set::<Seq<char>>::empty());
}

/// Once a document is indexed with a literal target that no document has,
/// that edge is reported as broken, while an edge to a recorded document is
/// not.
pub proof fn lemma_literal_target_broken(
    docs: Map<Seq<char>, DocMeta>,
    edges: Set<Edge>,
    path: Seq<char>,
    meta: DocMeta,
    links: Seq<Seq<char>>,
    missing: Seq<char>,
    found: Seq<char>,
)
    requires
        links.contains(missing),
        safe_target(missing),
        !docs.contains_key(missing),
        missing != path,
        docs.contains_key(found),
    ensures
        broken(docs.insert(path, meta), indexed_edges(edges, path, links)).contains(
            (path, missing),
        ),
        !broken(docs.insert(path, meta), indexed_edges(edges, path, links)).contains((path, found)),
{
    assert(safe_targets(links).contains(missing));
}

} // verus!
