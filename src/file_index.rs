//! The name resolver: a snapshot of the vault's documents, and the rules by
//! which a link target picks one of them.
use vstd::prelude::*;
use crate::path::{
    lemma_last_slash_at, segment_start, strip_tail,
    depth, depth_of, file_name, file_name_of, has_hidden_segment, has_hidden_segment_exec,
    has_md_extension, has_md_extension_exec, join, join_exec, rel_path, rel_path_of, stem,
    stem_of, to_string, with_md, with_md_exec,
};
use crate::text::{chars_of, contains, contains_exec, opt_view, same_chars};

verus! {

/// One entry of a walk of the vault: a file or a directory.
pub struct WalkEntry {
    pub path: String,
    pub is_file: bool,
    /// Last modification, in whole seconds since the Unix epoch.
    pub modified: i64,
    pub size: u64,
}

/// What a walk of the vault found: whether its root exists, and its entries
/// in the order of the walk.
pub struct VaultListing {
    pub root_exists: bool,
    pub entries: Vec<WalkEntry>,
}

/// Why the vault could not be indexed.
#[derive(Debug, Clone, Copy, PartialEq, Eq)]
pub enum IndexError {
    VaultNotFound,
}

impl IndexError {
    /// A message for the user.
    pub fn message(&self) -> (r: String)
        ensures
            *self == IndexError::VaultNotFound ==> r@ == "Vault path does not exist"@,
    {
        match self {
            IndexError::VaultNotFound => String::from_str("Vault path does not exist"),
        }
    }
}

/// A document the resolver knows: a Markdown file under the vault root with
/// no hidden segment below the root.
pub open spec fn indexable(vault: Seq<char>, e: WalkEntry) -> bool {
    &&& e.is_file
    &&& has_md_extension(e.path@)
    &&& match rel_path(vault, e.path@) {
        Some(r) => !has_hidden_segment(r),
        None => false,
    }
}

/// Whether the walk entry `e` is a document the resolver knows.
pub fn is_indexable(vault: &Vec<char>, e: &WalkEntry) -> (r: bool)
    ensures
        r == indexable(vault@, *e),
{
    if !e.is_file {
        return false;
    }
    let p = chars_of(e.path.as_str());
    if !has_md_extension_exec(&p) {
        return false;
    }
    match rel_path_of(vault, &p) {
        Some(r) => !has_hidden_segment_exec(&r),
        None => false,
    }
}

/// The paths of the indexable documents among `es`, in order.
pub open spec fn indexable_paths(vault: Seq<char>, es: Seq<WalkEntry>) -> Seq<Seq<char>>
    decreases es.len(),
{
    if es.len() == 0 {
        seq![]
    } else {
        let rest = indexable_paths(vault, es.drop_last());
        if indexable(vault, es.last()) {
            rest.push(es.last().path@)
        } else {
            rest
        }
    }
}

/// The paths of all entries of a walk, in order.
pub open spec fn entry_paths(es: Seq<WalkEntry>) -> Seq<Seq<char>> {
    es.map_values(|e: WalkEntry| e.path@)
}

/// A document is found under `name` when that is its file name or its stem.
pub open spec fn named(p: Seq<char>, name: Seq<char>) -> bool {
    file_name(p) == name || stem(p) == name
}

/// The documents found under `name`, in order.
pub open spec fn candidates(docs: Seq<Seq<char>>, name: Seq<char>) -> Seq<Seq<char>>
    decreases docs.len(),
{
    if docs.len() == 0 {
        seq![]
    } else {
        let rest = candidates(docs.drop_last(), name);
        if named(docs.last(), name) {
            rest.push(docs.last())
        } else {
            rest
        }
    }
}

/// `p` lies under the vault and its relative path contains `t`.
pub open spec fn path_matches(vault: Seq<char>, t: Seq<char>, p: Seq<char>) -> bool {
    match rel_path(vault, p) {
        Some(r) => contains(r, t),
        None => false,
    }
}

/// The first of `cs` whose relative path contains `t`.
pub open spec fn first_path_match(vault: Seq<char>, t: Seq<char>, cs: Seq<Seq<char>>) -> Option<
    Seq<char>,
>
    decreases cs.len(),
{
    if cs.len() == 0 {
        None
    } else if path_matches(vault, t, cs[0]) {
        Some(cs[0])
    } else {
        first_path_match(vault, t, cs.drop_first())
    }
}

/// How far below the vault root `p` lies; a path outside the vault sorts last.
pub open spec fn key(vault: Seq<char>, p: Seq<char>) -> int {
    match rel_path(vault, p) {
        Some(r) => depth(r) as int,
        None => usize::MAX as int,
    }
}

/// The index of the first of `cs[..n]` with the least depth.
pub open spec fn shallowest(vault: Seq<char>, cs: Seq<Seq<char>>, n: int) -> int
    decreases n,
{
    if n <= 1 {
        0
    } else {
        let b = shallowest(vault, cs, n - 1);
        if key(vault, cs[n - 1]) < key(vault, cs[b]) {
            n - 1
        } else {
            b
        }
    }
}

/// The document that the link target `t` resolves to.
///
/// A target with a `/` is first tried as a path under the vault (with `.md`
/// added where missing) that the walk saw, then as a file name whose relative
/// path contains the whole target, the first such in walk order. Otherwise, or failing that,
/// the documents named exactly `t` are looked up and the one closest to the
/// vault root wins, the first in walk order among equals.
pub open spec fn resolved(
    docs: Seq<Seq<char>>,
    present: Seq<Seq<char>>,
    vault: Seq<char>,
    t: Seq<char>,
) -> Option<Seq<char>> {
    let direct = with_md(join(vault, t));
    let by_path = first_path_match(vault, t, candidates(docs, file_name(t)));
    let plain = candidates(docs, t);
    if contains(t, seq!['/']) && present.contains(direct) {
        Some(direct)
    } else if contains(t, seq!['/']) && by_path is Some {
        by_path
    } else if plain.len() > 0 {
        Some(plain[shallowest(vault, plain, plain.len() as int)])
    } else {
        None
    }
}

/// The characters of each vector of `v`.
pub open spec fn vviews(v: Seq<Vec<char>>) -> Seq<Seq<char>> {
    v.map_values(|x: Vec<char>| x@)
}

/// A snapshot of the vault for resolving links: the indexable documents in
/// walk order, and the paths of every entry the walk saw.
pub struct FileIndex {
    docs: Vec<Vec<char>>,
    present: Vec<Vec<char>>,
}

impl FileIndex {
    /// The indexable documents, in walk order.
    pub closed spec fn documents(&self) -> Seq<Seq<char>> {
        vviews(self.docs@)
    }

    /// Every path the walk saw.
    pub closed spec fn present(&self) -> Seq<Seq<char>> {
        vviews(self.present@)
    }

    /// Builds the resolver from a walk of the vault; fails when the vault
    /// root does not exist.
    pub fn build(vault_path: &str, listing: &VaultListing) -> (r: Result<FileIndex, IndexError>)
        ensures
            !listing.root_exists <==> r is Err,
            r matches Ok(idx) ==> idx.documents() == indexable_paths(
                vault_path@,
                listing.entries@,
            ) && idx.present() == entry_paths(listing.entries@),
    {
        if !listing.root_exists {
            return Err(IndexError::VaultNotFound);
        }
        let vault = chars_of(vault_path);
        let mut docs: Vec<Vec<char>> = Vec::new();
        let mut present: Vec<Vec<char>> = Vec::new();
        let mut i: usize = 0;
        while i < listing.entries.len()
            invariant
                i <= listing.entries.len(),
                vault@ == vault_path@,
                vviews(docs@) == indexable_paths(vault@, listing.entries@.take(i as int)),
                vviews(present@) == entry_paths(listing.entries@.take(i as int)),
            decreases listing.entries.len() - i,
        {
            let e = &listing.entries[i];
            let p = chars_of(e.path.as_str());
            let ghost es = listing.entries@.take(i + 1);
            assert(es.drop_last() == listing.entries@.take(i as int));
            assert(es.last() == *e);
            if is_indexable(&vault, e) {
                docs.push(crate::path::copy_of(&p));
            }
            present.push(p);
            assert(entry_paths(es) == entry_paths(listing.entries@.take(i as int)).push(e.path@));
            i = i + 1;
        }
        assert(listing.entries@.take(listing.entries.len() as int) == listing.entries@);
        Ok(FileIndex { docs, present })
    }

    /// The documents found under `name`, in walk order.
    fn candidates_of(&self, name: &Vec<char>) -> (r: Vec<Vec<char>>)
        ensures
            vviews(r@) == candidates(self.documents(), name@),
    {
        let mut r: Vec<Vec<char>> = Vec::new();
        let mut i: usize = 0;
        while i < self.docs.len()
            invariant
                i <= self.docs.len(),
                vviews(r@) == candidates(vviews(self.docs@.take(i as int)), name@),
            decreases self.docs.len() - i,
        {
            let p = &self.docs[i];
            let ghost ds = vviews(self.docs@.take(i + 1));
            assert(ds.drop_last() == vviews(self.docs@.take(i as int)));
            assert(ds.last() == p@);
            let f = file_name_of(p);
            let s = stem_of(p);
            if same_chars(&f, name) || same_chars(&s, name) {
                r.push(crate::path::copy_of(p));
            }
            i = i + 1;
        }
        assert(self.docs@.take(self.docs.len() as int) == self.docs@);
        r
    }

    /// Whether the walk saw the path `p`.
    fn is_present(&self, p: &Vec<char>) -> (r: bool)
        ensures
            r == self.present().contains(p@),
    {
        let mut i: usize = 0;
        while i < self.present.len()
            invariant
                i <= self.present.len(),
                forall|k: int| 0 <= k < i ==> self.present@[k]@ != p@,
            decreases self.present.len() - i,
        {
            if same_chars(&self.present[i], p) {
                assert(self.present()[i as int] == p@);
                return true;
            }
            i = i + 1;
        }
        proof {
            if self.present().contains(p@) {
                let k = choose|k: int| 0 <= k < self.present().len() && self.present()[k] == p@;
                assert(self.present@[k]@ == p@);
            }
        }
        false
    }

    /// Resolves a link target to the path of a document, if any.
    pub fn resolve(&self, vault_path: &str, link_target: &str) -> (r: Option<String>)
        ensures
            opt_view(r) == resolved(
                self.documents(),
                self.present(),
                vault_path@,
                link_target@,
            ),
    {
        let vault = chars_of(vault_path);
        let t = chars_of(link_target);
        let mut slash: Vec<char> = Vec::new();
        slash.push('/');
        assert(slash@ == seq!['/']);
        if contains_exec(&t, &slash) {
            let joined = join_exec(&vault, &t);
            let direct = with_md_exec(&joined);
            if self.is_present(&direct) {
                return Some(to_string(&direct));
            }
            let name = file_name_of(&t);
            let cs = self.candidates_of(&name);
            match first_match(&vault, &t, &cs) {
                Some(p) => {
                    return Some(to_string(&p));
                },
                None => {},
            }
        }
        let plain = self.candidates_of(&t);
        if plain.len() == 0 {
            return None;
        }
        let b = shallowest_of(&vault, &plain);
        Some(to_string(&plain[b]))
    }
}

/// The first of `cs` whose path relative to `vault` contains `t`.
fn first_match(vault: &Vec<char>, t: &Vec<char>, cs: &Vec<Vec<char>>) -> (r: Option<Vec<char>>)
    ensures
        match r {
            Some(p) => first_path_match(vault@, t@, vviews(cs@)) == Some(p@),
            None => first_path_match(vault@, t@, vviews(cs@)) is None,
        },
{
    let mut i: usize = 0;
    assert(vviews(cs@).subrange(0, cs.len() as int) == vviews(cs@));
    while i < cs.len()
        invariant
            i <= cs.len(),
            first_path_match(vault@, t@, vviews(cs@)) == first_path_match(
                vault@,
                t@,
                vviews(cs@).subrange(i as int, cs.len() as int),
            ),
        decreases cs.len() - i,
    {
        let ghost rest = vviews(cs@).subrange(i as int, cs.len() as int);
        assert(rest[0] == cs@[i as int]@);
        assert(rest.drop_first() == vviews(cs@).subrange(i + 1, cs.len() as int));
        let hit = match rel_path_of(vault, &cs[i]) {
            Some(rel) => contains_exec(&rel, t),
            None => false,
        };
        if hit {
            return Some(crate::path::copy_of(&cs[i]));
        }
        i = i + 1;
    }
    assert(vviews(cs@).subrange(i as int, cs.len() as int).len() == 0);
    None
}

/// How far below `vault` the path `p` lies.
fn key_of(vault: &Vec<char>, p: &Vec<char>) -> (r: usize)
    ensures
        r == key(vault@, p@),
{
    match rel_path_of(vault, p) {
        Some(rel) => depth_of(&rel),
        None => usize::MAX,
    }
}

/// The index of the first of `cs` with the least depth below `vault`.
fn shallowest_of(vault: &Vec<char>, cs: &Vec<Vec<char>>) -> (r: usize)
    requires
        cs.len() > 0,
    ensures
        r < cs.len(),
        r == shallowest(vault@, vviews(cs@), cs.len() as int),
{
    let ghost v = vviews(cs@);
    let mut best: usize = 0;
    let mut best_key: usize = key_of(vault, &cs[0]);
    let mut i: usize = 1;
    while i < cs.len()
        invariant
            1 <= i <= cs.len(),
            v == vviews(cs@),
            best < i,
            best == shallowest(vault@, v, i as int),
            best_key == key(vault@, v[best as int]),
        decreases cs.len() - i,
    {
        let k = key_of(vault, &cs[i]);
        if k < best_key {
            best = i;
            best_key = k;
        }
        i = i + 1;
    }
    best
}

/// No `/` in `s`.
pub open spec fn no_slash(s: Seq<char>) -> bool {
    forall|i: int| 0 <= i < s.len() ==> #[trigger] s[i] != '/'
}

proof fn lemma_depth_one(s: Seq<char>)
    requires
        no_slash(s),
    ensures
        depth(s) == if s.len() > 0 {
            1nat
        } else {
            0nat
        },
    decreases s.len(),
{
    if s.len() > 0 {
        lemma_depth_one(s.drop_last());
        assert(segment_start(s, s.len() - 1) == (s.len() == 1));
    }
}

proof fn lemma_depth_concat(a: Seq<char>, b: Seq<char>)
    ensures
        depth(a + seq!['/'] + b) == depth(a) + depth(b),
    decreases b.len(),
{
    let s = a + seq!['/'] + b;
    if b.len() == 0 {
        assert(s.drop_last() == a);
        assert(!segment_start(s, s.len() - 1));
    } else {
        lemma_depth_concat(a, b.drop_last());
        assert(s.drop_last() == a + seq!['/'] + b.drop_last());
        let n = s.len() - 1;
        let m = b.len() - 1;
        assert(s[n] == b[m]);
        if m > 0 {
            assert(s[n - 1] == b[m - 1]);
        } else {
            assert(s[n - 1] == '/');
        }
        assert(segment_start(s, n) == segment_start(b, m));
    }
}

/// The path `vault/rel`, where `rel` ends in a slash-free file name.
proof fn lemma_doc_under(vault: Seq<char>, dir: Seq<char>, name: Seq<char>, p: Seq<char>)
    requires
        vault.len() > 0,
        no_slash(name),
        name.len() > 3,
        name.subrange(name.len() - 3, name.len() as int) == seq!['.', 'm', 'd'],
        p == join(vault, dir + name),
        dir.len() == 0 || (dir[0] != '/' && dir.last() == '/'),
    ensures
        file_name(p) == name,
        has_md_extension(p),
        stem(p) == name.subrange(0, name.len() - 3),
        rel_path(vault, p) == Some(dir + name),
{
    let rel = dir + name;
    assert(rel[0] != '/') by {
        if dir.len() == 0 {
            assert(rel[0] == name[0]);
        }
    }
    assert(p.last() == name.last());
    assert(name.last() == 'd') by {
        assert(name.subrange(name.len() - 3, name.len() as int)[2] == name.last());
    }
    assert(strip_tail(p) == p);
    let k = p.len() - name.len() - 1;
    assert(p[k] == '/') by {
        if dir.len() > 0 {
            assert(p[k] == dir.last());
        } else if vault.last() == '/' {
            assert(p[k] == vault.last());
        }
    }
    assert forall|m: int| k < m < p.len() implies p[m] != '/' by {
        assert(p[m] == name[m - k - 1]);
    }
    lemma_last_slash_at(p, k);
    assert(p.subrange(k + 1, p.len() as int) == name);
    assert(p != vault);
    if vault.last() == '/' {
        assert(p == vault + rel);
        assert(p.subrange(0, vault.len() as int) == vault);
        assert(p.subrange(vault.len() as int, p.len() as int) == rel);
    } else {
        let q = vault + seq!['/'];
        assert(p == q + rel);
        assert(p.subrange(0, q.len() as int) == q);
        assert(p.subrange(vault.len() + 1int, p.len() as int) == rel);
    }
}

/// Of two documents with the same file name, one directly under the vault
/// root and one in a subfolder, a bare link to their name without its `.md`
/// resolves to the one at the root: whatever else the index holds, as long as
/// these two are the documents found under that name, in either walk order.
#[verifier::rlimit(100)]
pub proof fn lemma_root_level_wins(
    vault: Seq<char>,
    folder: Seq<char>,
    title: Seq<char>,
    docs: Seq<Seq<char>>,
    present: Seq<Seq<char>>,
)
    requires
        vault.len() > 0,
        folder.len() > 0,
        no_slash(folder),
        title.len() > 0,
        no_slash(title),
        ({
            let name = title + seq!['.', 'm', 'd'];
            let at_root = join(vault, name);
            let in_folder = join(vault, folder + seq!['/'] + name);
            candidates(docs, title) == seq![at_root, in_folder] || candidates(docs, title) == seq![
                in_folder,
                at_root,
            ]
        }),
    ensures
        resolved(docs, present, vault, title) == Some(join(vault, title + seq!['.', 'm', 'd'])),
{
    let name = title + seq!['.', 'm', 'd'];
    let at_root = join(vault, name);
    let in_folder = join(vault, folder + seq!['/'] + name);
    let sub = folder + seq!['/'];
    assert(no_slash(name)) by {
        assert forall|i: int| 0 <= i < name.len() implies #[trigger] name[i] != '/' by {
            if i < title.len() {
                assert(name[i] == title[i]);
            }
        }
    }
    assert(name.subrange(name.len() - 3, name.len() as int) =~= seq!['.', 'm', 'd']);
    assert(Seq::<char>::empty() + name == name);
    lemma_doc_under(vault, Seq::<char>::empty(), name, at_root);
    assert(sub + name == folder + seq!['/'] + name);
    assert(sub[0] == folder[0]);
    lemma_doc_under(vault, sub, name, in_folder);
    lemma_depth_one(name);
    lemma_depth_one(folder);
    lemma_depth_concat(folder, name);
    assert(key(vault, at_root) == 1);
    assert(key(vault, in_folder) == 2);
    assert(!contains(title, seq!['/'])) by {
        assert forall|i: int| !crate::text::occurs_at(title, seq!['/'], i) by {
            if 0 <= i && i + 1 <= title.len() && title.subrange(i, i + 1) == seq!['/'] {
                assert(title.subrange(i, i + 1)[0] == title[i]);
            }
        }
    }
    let plain = candidates(docs, title);
    assert(plain.len() == 2);
    assert(shallowest(vault, plain, 1) == 0);
    if plain == seq![at_root, in_folder] {
        assert(plain[0] == at_root && plain[1] == in_folder);
        assert(shallowest(vault, plain, 2) == 0);
    } else {
        assert(plain[0] == in_folder && plain[1] == at_root);
        assert(shallowest(vault, plain, 2) == 1);
    }
    assert(plain[shallowest(vault, plain, plain.len() as int)] == at_root);
}

/// A bare link whose name no document carries resolves to nothing, so it
/// yields no edge at all rather than a placeholder.
pub proof fn lemma_unknown_name_dropped(
    docs: Seq<Seq<char>>,
    present: Seq<Seq<char>>,
    vault: Seq<char>,
    t: Seq<char>,
)
    requires
        no_slash(t),
        candidates(docs, t).len() == 0,
    ensures
        resolved(docs, present, vault, t) is None,
{
    assert(!contains(t, seq!['/'])) by {
        assert forall|i: int| !crate::text::occurs_at(t, seq!['/'], i) by {
            if 0 <= i && i + 1 <= t.len() && t.subrange(i, i + 1) == seq!['/'] {
                assert(t.subrange(i, i + 1)[0] == t[i]);
            }
        }
    }
}

} // verus!
