//! Paths as text: `/`-separated, as the vault walk reports them.
use vstd::prelude::*;
use crate::text::{chars_of, starts_with, string_of, trim};

verus! {

/// The position of the last `/` in `p`.
pub open spec fn last_slash(p: Seq<char>) -> Option<int>
    decreases p.len(),
{
    if p.len() == 0 {
        None
    } else if p.last() == '/' {
        Some(p.len() - 1)
    } else {
        last_slash(p.drop_last())
    }
}

/// What follows the last `/` of `p`.
pub open spec fn last_segment(p: Seq<char>) -> Seq<char> {
    match last_slash(p) {
        Some(k) => p.subrange(k + 1, p.len() as int),
        None => p,
    }
}

/// `p` without the trailing `/` and `.` segments that name nothing new: a
/// path ending in `/` or in `/.` means the same as the path before them.
pub open spec fn strip_tail(p: Seq<char>) -> Seq<char>
    decreases p.len(),
{
    if p.len() > 1 && p.last() == '/' {
        strip_tail(p.drop_last())
    } else if p.len() > 1 && p.last() == '.' && p[p.len() - 2] == '/' {
        strip_tail(p.drop_last())
    } else {
        p
    }
}

/// The file name of `p`: its last segment once trailing `/` and `.`
/// segments are dropped.
pub open spec fn file_name(p: Seq<char>) -> Seq<char> {
    last_segment(strip_tail(p))
}

/// The file name ends in `.md` after at least one other character.
pub open spec fn has_md_extension(p: Seq<char>) -> bool {
    let n = file_name(p);
    n.len() > 3 && n.subrange(n.len() - 3, n.len() as int) == seq!['.', 'm', 'd']
}

/// `s` ends in `.md`.
pub open spec fn ends_with_md(s: Seq<char>) -> bool {
    s.len() >= 3 && s.subrange(s.len() - 3, s.len() as int) == seq!['.', 'm', 'd']
}

/// The file name without its `.md` extension.
pub open spec fn stem(p: Seq<char>) -> Seq<char> {
    let n = file_name(p);
    if has_md_extension(p) {
        n.subrange(0, n.len() - 3)
    } else {
        n
    }
}

/// `p` with the `.md` extension added where it is not already there.
pub open spec fn with_md(p: Seq<char>) -> Seq<char> {
    if has_md_extension(p) {
        p
    } else {
        p + seq!['.', 'm', 'd']
    }
}

/// `rel` placed under `root`; an absolute `rel` stands for itself.
pub open spec fn join(root: Seq<char>, rel: Seq<char>) -> Seq<char> {
    if rel.len() > 0 && rel[0] == '/' {
        rel
    } else if root.len() == 0 {
        rel
    } else if root.last() == '/' {
        root + rel
    } else {
        root + seq!['/'] + rel
    }
}

/// `p` relative to `root`, when `p` lies under `root`.
pub open spec fn rel_path(root: Seq<char>, p: Seq<char>) -> Option<Seq<char>> {
    if root.len() == 0 {
        Some(p)
    } else if p == root {
        Some(seq![])
    } else if root.last() == '/' && starts_with(p, root) {
        Some(p.subrange(root.len() as int, p.len() as int))
    } else if starts_with(p, root + seq!['/']) {
        Some(p.subrange(root.len() + 1int, p.len() as int))
    } else {
        None
    }
}

/// A segment of `p` begins at `i`.
pub open spec fn segment_start(p: Seq<char>, i: int) -> bool {
    0 <= i < p.len() && p[i] != '/' && (i == 0 || p[i - 1] == '/')
}

/// The number of non-empty segments of `p`.
pub open spec fn depth(p: Seq<char>) -> nat
    decreases p.len(),
{
    if p.len() == 0 {
        0
    } else {
        depth(p.drop_last()) + if segment_start(p, p.len() - 1) {
            1nat
        } else {
            0nat
        }
    }
}

/// Some segment of `p` is exactly `..`.
pub open spec fn has_parent_segment(p: Seq<char>) -> bool {
    exists|i: int|
        #![trigger p[i]]
        segment_start(p, i) && i + 1 < p.len() && p[i] == '.' && p[i + 1] == '.' && (i + 2
            == p.len() || p[i + 2] == '/')
}

/// Some segment of `p` begins with a `.`: a hidden file or directory.
pub open spec fn has_hidden_segment(p: Seq<char>) -> bool {
    exists|i: int| #![trigger p[i]] segment_start(p, i) && p[i] == '.'
}

/// `p` holds nothing but whitespace.
pub open spec fn blank(p: Seq<char>) -> bool {
    trim(p).len() == 0
}

/// A relative path made only of ordinary segments: not blank, not rooted,
/// not opening with a `.` segment, and with no `..` segment.
pub open spec fn safe_path(p: Seq<char>) -> bool {
    &&& !blank(p)
    &&& !(p.len() > 0 && p[0] == '/')
    &&& !(p == seq!['.'] || starts_with(p, seq!['.', '/']))
    &&& !has_parent_segment(p)
}

/// A single ordinary segment: not blank, no separator, neither `.` nor `..`.
pub open spec fn safe_filename(p: Seq<char>) -> bool {
    &&& !blank(p)
    &&& forall|i: int| #![trigger p[i]] 0 <= i < p.len() ==> p[i] != '/' && p[i] != '\\'
    &&& p != seq!['.']
    &&& p != seq!['.', '.']
}

/// A link target that may be stored: not blank, and with no `..` segment
/// through which it could climb out of the vault.
pub open spec fn safe_target(p: Seq<char>) -> bool {
    !blank(p) && !has_parent_segment(p)
}

/// What the last `/` of a path satisfies.
pub proof fn lemma_last_slash(p: Seq<char>)
    ensures
        last_slash(p) is Some ==> {
            let k = last_slash(p)->0;
            &&& 0 <= k < p.len()
            &&& p[k] == '/'
            &&& forall|m: int| k < m < p.len() ==> p[m] != '/'
        },
        last_slash(p) is None ==> forall|m: int| 0 <= m < p.len() ==> p[m] != '/',
    decreases p.len(),
{
    if p.len() > 0 && p.last() != '/' {
        lemma_last_slash(p.drop_last());
        assert(forall|m: int| 0 <= m < p.len() - 1 ==> p.drop_last()[m] == p[m]);
    }
}

/// Whether `v` is blank.
pub fn is_blank(v: &Vec<char>) -> (r: bool)
    ensures
        r == blank(v@),
{
    let (a, b) = crate::text::trim_bounds(v, 0, v.len());
    assert(v@.subrange(0, v.len() as int) == v@);
    a == b
}

/// `v` without its trailing `/` and `.` segments.
pub fn strip_tail_of(v: &Vec<char>) -> (r: Vec<char>)
    ensures
        r@ == strip_tail(v@),
{
    let mut e: usize = v.len();
    assert(v@.subrange(0, e as int) == v@);
    while e > 1 && (v[e - 1] == '/' || (v[e - 1] == '.' && v[e - 2] == '/'))
        invariant
            e <= v.len(),
            strip_tail(v@) == strip_tail(v@.subrange(0, e as int)),
        decreases e,
    {
        assert(v@.subrange(0, e as int).drop_last() == v@.subrange(0, e - 1));
        e = e - 1;
    }
    let mut r: Vec<char> = Vec::new();
    let mut i: usize = 0;
    while i < e
        invariant
            i <= e <= v.len(),
            r@ == v@.subrange(0, i as int),
        decreases e - i,
    {
        r.push(v[i]);
        assert(v@.subrange(0, i + 1) == v@.subrange(0, i as int).push(v@[i as int]));
        i = i + 1;
    }
    r
}

/// The position just after the last `/` of `v`, or 0.
fn name_start(v: &Vec<char>) -> (r: usize)
    ensures
        r <= v.len(),
        v@.subrange(r as int, v.len() as int) == last_segment(v@),
{
    proof {
        lemma_last_slash(v@);
    }
    let mut i: usize = v.len();
    while i > 0
        invariant
            i <= v.len(),
            forall|m: int| i <= m < v.len() ==> v@[m] != '/',
        decreases i,
    {
        if v[i - 1] == '/' {
            proof {
                lemma_last_slash_at(v@, i - 1);
            }
            return i;
        }
        i = i - 1;
    }
    proof {
        lemma_no_slash(v@);
    }
    assert(v@.subrange(0, v.len() as int) == v@);
    0
}

/// A `/` with none after it is the last one.
pub proof fn lemma_last_slash_at(p: Seq<char>, k: int)
    requires
        0 <= k < p.len(),
        p[k] == '/',
        forall|m: int| k < m < p.len() ==> p[m] != '/',
    ensures
        last_slash(p) == Some(k),
    decreases p.len(),
{
    if p.len() - 1 != k {
        lemma_last_slash_at(p.drop_last(), k);
    }
}

/// A path with no `/` has no last one.
pub proof fn lemma_no_slash(p: Seq<char>)
    requires
        forall|m: int| 0 <= m < p.len() ==> p[m] != '/',
    ensures
        last_slash(p) is None,
    decreases p.len(),
{
    if p.len() > 0 {
        lemma_no_slash(p.drop_last());
    }
}

/// The file name of `v`, as characters.
pub fn file_name_of(p: &Vec<char>) -> (r: Vec<char>)
    ensures
        r@ == file_name(p@),
{
    let v = strip_tail_of(p);
    let s = name_start(&v);
    let mut r: Vec<char> = Vec::new();
    let mut i: usize = s;
    while i < v.len()
        invariant
            s <= i <= v.len(),
            r@ == v@.subrange(s as int, i as int),
        decreases v.len() - i,
    {
        r.push(v[i]);
        assert(v@.subrange(s as int, i + 1) == v@.subrange(s as int, i as int).push(v@[i as int]));
        i = i + 1;
    }
    r
}

/// Whether the file name of `v` carries the `.md` extension.
pub fn has_md_extension_exec(p: &Vec<char>) -> (r: bool)
    ensures
        r == has_md_extension(p@),
{
    let v = strip_tail_of(p);
    let s = name_start(&v);
    let n = v.len() - s;
    if n <= 3 {
        return false;
    }
    let r = v[v.len() - 3] == '.' && v[v.len() - 2] == 'm' && v[v.len() - 1] == 'd';
    proof {
        let name = v@.subrange(s as int, v.len() as int);
        let tail = name.subrange(name.len() - 3, name.len() as int);
        assert(tail[0] == v@[v.len() - 3]);
        assert(tail[1] == v@[v.len() - 2]);
        assert(tail[2] == v@[v.len() - 1]);
        if r {
            assert(tail =~= seq!['.', 'm', 'd']);
        } else if tail == seq!['.', 'm', 'd'] {
            assert(tail[0] == '.' && tail[1] == 'm' && tail[2] == 'd');
        }
    }
    r
}

/// Whether `v` ends in `.md`.
pub fn ends_with_md_exec(v: &Vec<char>) -> (r: bool)
    ensures
        r == ends_with_md(v@),
{
    if v.len() < 3 {
        return false;
    }
    let r = v[v.len() - 3] == '.' && v[v.len() - 2] == 'm' && v[v.len() - 1] == 'd';
    proof {
        let t = v@.subrange(v.len() - 3, v.len() as int);
        assert(t[0] == v@[v.len() - 3] && t[1] == v@[v.len() - 2] && t[2] == v@[v.len() - 1]);
        if r {
            assert(t =~= seq!['.', 'm', 'd']);
        }
    }
    r
}

/// The stem of `v`: its file name without the `.md` extension.
pub fn stem_of(v: &Vec<char>) -> (r: Vec<char>)
    ensures
        r@ == stem(v@),
{
    let n = file_name_of(v);
    if has_md_extension_exec(v) {
        let mut r: Vec<char> = Vec::new();
        let mut i: usize = 0;
        while i < n.len() - 3
            invariant
                n.len() > 3,
                i <= n.len() - 3,
                r@ == n@.subrange(0, i as int),
            decreases n.len() - 3 - i,
        {
            r.push(n[i]);
            assert(n@.subrange(0, i + 1) == n@.subrange(0, i as int).push(n@[i as int]));
            i = i + 1;
        }
        r
    } else {
        n
    }
}

/// Whether `v` begins with `pre`.
pub fn starts_with_exec(v: &Vec<char>, pre: &Vec<char>) -> (r: bool)
    ensures
        r == starts_with(v@, pre@),
{
    let r = crate::text::occurs_at_exec(v, pre, 0);
    r
}

/// `v[lo..]` as a new vector.
fn tail_of(v: &Vec<char>, lo: usize) -> (r: Vec<char>)
    requires
        lo <= v.len(),
    ensures
        r@ == v@.subrange(lo as int, v.len() as int),
{
    let mut r: Vec<char> = Vec::new();
    let mut i: usize = lo;
    while i < v.len()
        invariant
            lo <= i <= v.len(),
            r@ == v@.subrange(lo as int, i as int),
        decreases v.len() - i,
    {
        r.push(v[i]);
        assert(v@.subrange(lo as int, i + 1) == v@.subrange(lo as int, i as int).push(v@[i as int]));
        i = i + 1;
    }
    r
}

/// A copy of `v`.
pub fn copy_of(v: &Vec<char>) -> (r: Vec<char>)
    ensures
        r@ == v@,
{
    let r = tail_of(v, 0);
    assert(v@.subrange(0, v.len() as int) == v@);
    r
}

/// `p` relative to `root`, when `p` lies under `root`.
pub fn rel_path_of(root: &Vec<char>, p: &Vec<char>) -> (r: Option<Vec<char>>)
    ensures
        match r {
            Some(v) => rel_path(root@, p@) == Some(v@),
            None => rel_path(root@, p@) is None,
        },
{
    if root.len() == 0 {
        let r = tail_of(p, 0);
        assert(p@.subrange(0, p.len() as int) == p@);
        return Some(r);
    }
    if crate::text::same_chars(root, p) {
        return Some(Vec::new());
    }
    if root[root.len() - 1] == '/' {
        if starts_with_exec(p, root) {
            return Some(tail_of(p, root.len()));
        }
        proof {
            if starts_with(p@, root@ + seq!['/']) {
                let q = root@ + seq!['/'];
                assert(p@.subrange(0, root.len() as int) == q.subrange(0, root.len() as int));
                assert(q.subrange(0, root.len() as int) == root@);
            }
        }
        return None;
    }
    if p.len() > root.len() && starts_with_exec(p, root) && p[root.len()] == '/' {
        assert(p@.subrange(0, root.len() + 1) == root@ + seq!['/']) by {
            assert(p@.subrange(0, root.len() as int) == root@);
        }
        return Some(tail_of(p, root.len() + 1));
    }
    proof {
        if starts_with(p@, root@ + seq!['/']) {
            let q = root@ + seq!['/'];
            assert(p@.subrange(0, root.len() as int) == q.subrange(0, root.len() as int));
            assert(q.subrange(0, root.len() as int) == root@);
            assert(p@[root.len() as int] == q[root.len() as int]);
        }
    }
    None
}

/// The number of non-empty segments of `v`.
pub fn depth_of(v: &Vec<char>) -> (r: usize)
    ensures
        r == depth(v@),
{
    let mut n: usize = 0;
    let mut i: usize = 0;
    while i < v.len()
        invariant
            i <= v.len(),
            n == depth(v@.subrange(0, i as int)),
            n <= i,
        decreases v.len() - i,
    {
        let ghost pre = v@.subrange(0, i + 1);
        assert(pre.drop_last() == v@.subrange(0, i as int));
        if v[i] != '/' && (i == 0 || v[i - 1] == '/') {
            assert(segment_start(pre, i as int));
            n = n + 1;
        } else {
            assert(!segment_start(pre, i as int));
        }
        i = i + 1;
    }
    assert(v@.subrange(0, v.len() as int) == v@);
    n
}

/// Whether some segment of `v` is exactly `..`.
pub fn has_parent_segment_exec(v: &Vec<char>) -> (r: bool)
    ensures
        r == has_parent_segment(v@),
{
    let mut i: usize = 0;
    while i < v.len()
        invariant
            i <= v.len(),
            forall|k: int|
                #![trigger v@[k]]
                0 <= k < i ==> !(segment_start(v@, k) && k + 1 < v.len() && v@[k] == '.' && v@[k
                    + 1] == '.' && (k + 2 == v.len() || v@[k + 2] == '/')),
        decreases v.len() - i,
    {
        if v[i] != '/' && (i == 0 || v[i - 1] == '/') && i + 1 < v.len() && v[i] == '.' && v[i
            + 1] == '.' && (i + 2 == v.len() || v[i + 2] == '/') {
            return true;
        }
        i = i + 1;
    }
    false
}

/// Whether some segment of `v` begins with a `.`.
pub fn has_hidden_segment_exec(v: &Vec<char>) -> (r: bool)
    ensures
        r == has_hidden_segment(v@),
{
    let mut i: usize = 0;
    while i < v.len()
        invariant
            i <= v.len(),
            forall|k: int| #![trigger v@[k]] 0 <= k < i ==> !(segment_start(v@, k) && v@[k] == '.'),
        decreases v.len() - i,
    {
        if v[i] == '.' && (i == 0 || v[i - 1] == '/') {
            return true;
        }
        i = i + 1;
    }
    false
}

/// Whether a path is safe to use inside the vault: it is not blank, is not
/// rooted, does not open with `.`, and has no `..` segment.
pub fn is_safe_path(path_str: &str) -> (r: bool)
    ensures
        r == safe_path(path_str@),
{
    let v = chars_of(path_str);
    if is_blank(&v) {
        return false;
    }
    if v[0] == '/' {
        return false;
    }
    if v[0] == '.' && (v.len() == 1 || v[1] == '/') {
        assert(v@ == seq!['.'] || v@.subrange(0, 2) == seq!['.', '/']);
        return false;
    }
    proof {
        if v@.len() >= 2 && v@.subrange(0, 2) == seq!['.', '/'] {
            assert(v@[0] == v@.subrange(0, 2)[0]);
            assert(v@[1] == v@.subrange(0, 2)[1]);
        }
    }
    !has_parent_segment_exec(&v)
}

/// Whether a string is safe to use as a file name: a single ordinary segment.
pub fn is_safe_filename(input: &str) -> (r: bool)
    ensures
        r == safe_filename(input@),
{
    let v = chars_of(input);
    if is_blank(&v) {
        return false;
    }
    let mut i: usize = 0;
    while i < v.len()
        invariant
            i <= v.len(),
            v@ == input@,
            forall|k: int| #![trigger v@[k]] 0 <= k < i ==> v@[k] != '/' && v@[k] != '\\',
        decreases v.len() - i,
    {
        if v[i] == '/' || v[i] == '\\' {
            assert(v@[i as int] == '/' || v@[i as int] == '\\');
            return false;
        }
        i = i + 1;
    }
    if v.len() == 1 && v[0] == '.' {
        assert(v@ == seq!['.']);
        return false;
    }
    if v.len() == 2 && v[0] == '.' && v[1] == '.' {
        assert(v@ == seq!['.', '.']);
        return false;
    }
    true
}

/// Whether a link target may be stored.
pub fn is_safe_target(v: &Vec<char>) -> (r: bool)
    ensures
        r == safe_target(v@),
{
    !is_blank(v) && !has_parent_segment_exec(v)
}

/// `rel` placed under `root`.
pub fn join_exec(root: &Vec<char>, rel: &Vec<char>) -> (r: Vec<char>)
    ensures
        r@ == join(root@, rel@),
{
    if (rel.len() > 0 && rel[0] == '/') || root.len() == 0 {
        return tail_of(rel, 0);
    }
    let mut r = tail_of(root, 0);
    if root[root.len() - 1] != '/' {
        r.push('/');
    }
    let ghost base = r@;
    let mut i: usize = 0;
    while i < rel.len()
        invariant
            i <= rel.len(),
            r@ == base + rel@.subrange(0, i as int),
        decreases rel.len() - i,
    {
        r.push(rel[i]);
        assert(rel@.subrange(0, i + 1) == rel@.subrange(0, i as int).push(rel@[i as int]));
        i = i + 1;
    }
    assert(root@.subrange(0, root.len() as int) == root@);
    assert(rel@.subrange(0, rel.len() as int) == rel@);
    r
}

/// `v` with the `.md` extension added where it is not already there.
pub fn with_md_exec(v: &Vec<char>) -> (r: Vec<char>)
    ensures
        r@ == with_md(v@),
{
    let mut r = tail_of(v, 0);
    assert(v@.subrange(0, v.len() as int) == v@);
    if !has_md_extension_exec(v) {
        r.push('.');
        r.push('m');
        r.push('d');
        assert(r@ == v@ + seq!['.', 'm', 'd']);
    }
    r
}

/// A `String` holding the characters of `v`.
pub fn to_string(v: &Vec<char>) -> (r: String)
    ensures
        r@ == v@,
{
    let r = string_of(v, 0, v.len());
    assert(v@.subrange(0, v.len() as int) == v@);
    r
}

} // verus!
