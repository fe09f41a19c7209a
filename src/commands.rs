//! The decisions behind the vault's file commands: what a new note, a new
//! folder, a renamed item or a trashed item is called. The caller does the
//! filesystem work with the names these return.
use vstd::prelude::*;
use crate::path::{
    blank, ends_with_md, file_name, file_name_of, is_blank, join, join_exec, rel_path,
    rel_path_of, strip_tail, to_string,
};
use crate::sanitize::{sanitize_string, sanitized};
use crate::text::chars_of;

verus! {

/// The character of the decimal digit `d`.
pub open spec fn digit(d: nat) -> char {
    if d == 0 {
        '0'
    } else if d == 1 {
        '1'
    } else if d == 2 {
        '2'
    } else if d == 3 {
        '3'
    } else if d == 4 {
        '4'
    } else if d == 5 {
        '5'
    } else if d == 6 {
        '6'
    } else if d == 7 {
        '7'
    } else if d == 8 {
        '8'
    } else {
        '9'
    }
}

/// `n` written in decimal.
pub open spec fn decimal(n: nat) -> Seq<char>
    decreases n,
{
    if n < 10 {
        seq![digit(n)]
    } else {
        decimal(n / 10).push(digit(n % 10))
    }
}

fn digit_char(d: u128) -> (c: char)
    requires
        d < 10,
    ensures
        c == digit(d as nat),
{
    if d == 0 {
        '0'
    } else if d == 1 {
        '1'
    } else if d == 2 {
        '2'
    } else if d == 3 {
        '3'
    } else if d == 4 {
        '4'
    } else if d == 5 {
        '5'
    } else if d == 6 {
        '6'
    } else if d == 7 {
        '7'
    } else if d == 8 {
        '8'
    } else {
        '9'
    }
}

/// Appends `n` in decimal to `out`.
fn push_decimal(out: &mut Vec<char>, n: u128)
    ensures
        final(out)@ == old(out)@ + decimal(n as nat),
    decreases n,
{
    if n >= 10 {
        push_decimal(out, n / 10);
    }
    let d = n % 10;
    out.push(digit_char(d));
    proof {
        if n >= 10 {
            assert(decimal(n as nat) == decimal((n / 10) as nat).push(digit((n % 10) as nat)));
        }
    }
}

/// Appends the characters of `s` to `out`.
fn push_all(out: &mut Vec<char>, v: &Vec<char>)
    ensures
        final(out)@ == old(out)@ + v@,
{
    let ghost start = out@;
    let mut i: usize = 0;
    while i < v.len()
        invariant
            i <= v.len(),
            out@ == start + v@.take(i as int),
        decreases v.len() - i,
    {
        out.push(v[i]);
        assert(v@.take(i + 1) == v@.take(i as int).push(v@[i as int]));
        i = i + 1;
    }
    assert(v@.take(v.len() as int) == v@);
}

/// The title a new note gets: the sanitized title, or `Untitled` when
/// nothing is left of it.
pub open spec fn note_title(title: Seq<char>) -> Seq<char> {
    if blank(sanitized(title)) {
        seq!['U', 'n', 't', 'i', 't', 'l', 'e', 'd']
    } else {
        sanitized(title)
    }
}

/// The file name of a new note: `title.md`, or `title (n).md` for the
/// `n`-th attempt after a collision.
pub open spec fn note_file_name(title: Seq<char>, attempt: nat) -> Seq<char> {
    if attempt == 0 {
        title + seq!['.', 'm', 'd']
    } else {
        title + seq![' ', '('] + decimal(attempt) + seq![')', '.', 'm', 'd']
    }
}

/// The title a new note gets from what the user typed.
pub fn new_note_title(title: String) -> (r: String)
    ensures
        r@ == note_title(title@),
{
    let s = sanitize_string(title);
    let v = chars_of(s.as_str());
    if is_blank(&v) {
        let mut u: Vec<char> = Vec::new();
        u.push('U');
        u.push('n');
        u.push('t');
        u.push('i');
        u.push('t');
        u.push('l');
        u.push('e');
        u.push('d');
        assert(u@ == seq!['U', 'n', 't', 'i', 't', 'l', 'e', 'd']);
        to_string(&u)
    } else {
        s
    }
}

/// The path of a new note in the vault: the `attempt`-th candidate name,
/// where 0 is the plain `title.md`.
pub fn new_note_path(vault_path: &str, title: &str, attempt: u128) -> (r: String)
    ensures
        r@ == join(vault_path@, note_file_name(title@, attempt as nat)),
{
    let t = chars_of(title);
    let mut name: Vec<char> = Vec::new();
    push_all(&mut name, &t);
    if attempt > 0 {
        name.push(' ');
        name.push('(');
        push_decimal(&mut name, attempt);
        name.push(')');
    }
    name.push('.');
    name.push('m');
    name.push('d');
    proof {
        if attempt > 0 {
            assert(name@ =~= title@ + seq![' ', '('] + decimal(attempt as nat) + seq![')', '.', 'm', 'd']);
        } else {
            assert(name@ =~= title@ + seq!['.', 'm', 'd']);
        }
    }
    let vault = chars_of(vault_path);
    to_string(&join_exec(&vault, &name))
}

/// The path of a new folder in the vault, from the name the user typed;
/// fails when nothing is left of the name once sanitized.
pub fn new_folder_path(vault_path: &str, folder_name: String) -> (r: Result<String, String>)
    ensures
        r is Err <==> blank(sanitized(folder_name@)),
        r matches Ok(p) ==> p@ == join(vault_path@, sanitized(folder_name@)),
        r matches Err(m) ==> m@ == "Invalid folder name: Name cannot be empty"@,
{
    let clean = sanitize_string(folder_name);
    let c = chars_of(clean.as_str());
    if is_blank(&c) {
        return Err(String::from_str("Invalid folder name: Name cannot be empty"));
    }
    let vault = chars_of(vault_path);
    Ok(to_string(&join_exec(&vault, &c)))
}

/// The directory part of `p`: what comes before its last `/` once trailing
/// `/` and `.` segments are dropped; absent for an empty path and for `/`.
pub open spec fn parent_of(p: Seq<char>) -> Option<Seq<char>> {
    let t = strip_tail(p);
    if t.len() == 0 || t == seq!['/'] {
        None
    } else {
        match crate::path::last_slash(t) {
            Some(k) => if k == 0 {
                Some(seq!['/'])
            } else {
                Some(t.subrange(0, k))
            },
            None => Some(seq![]),
        }
    }
}

/// Where a renamed item goes: next to where it was, under the sanitized new
/// name, with `.md` added to a file name that lacks it.
pub open spec fn renamed_path(old_path: Seq<char>, new_name: Seq<char>, is_dir: bool) -> Seq<
    char,
> {
    let clean = sanitized(new_name);
    let name = if is_dir || ends_with_md(clean) {
        clean
    } else {
        clean + seq!['.', 'm', 'd']
    };
    join(parent_of(old_path)->0, name)
}

/// Why a rename is refused before the filesystem is touched.
#[derive(Debug, Clone, Copy, PartialEq, Eq)]
pub enum RenameError {
    /// The item or its new place lies outside the vault.
    OutsideVault,
    /// The item's path has no directory part.
    NoParent,
    /// Nothing is left of the new name once sanitized.
    EmptyName,
}

impl RenameError {
    /// A message for the user.
    pub fn message(&self) -> (r: String)
        ensures
            *self == RenameError::OutsideVault ==> r@ == "Security Error: Cannot rename files outside the vault"@,
            *self == RenameError::NoParent ==> r@ == "Invalid path: No parent directory"@,
            *self == RenameError::EmptyName ==> r@ == "Invalid name: Filename cannot be empty"@,
    {
        match self {
            RenameError::OutsideVault => String::from_str(
                "Security Error: Cannot rename files outside the vault",
            ),
            RenameError::NoParent => String::from_str("Invalid path: No parent directory"),
            RenameError::EmptyName => String::from_str("Invalid name: Filename cannot be empty"),
        }
    }
}

/// Works out the new path of an item being renamed, refusing items outside
/// the vault, paths with no directory part, empty names, and new paths that
/// would leave the vault.
pub fn plan_rename(vault_path: &str, old_path: &str, new_name: String, is_dir: bool) -> (r: Result<
    String,
    RenameError,
>)
    ensures
        rel_path(vault_path@, old_path@) is None ==> r == Err::<String, RenameError>(
            RenameError::OutsideVault,
        ),
        rel_path(vault_path@, old_path@) is Some && parent_of(old_path@) is None ==> r == Err::<
            String,
            RenameError,
        >(RenameError::NoParent),
        rel_path(vault_path@, old_path@) is Some && parent_of(old_path@) is Some && blank(
            sanitized(new_name@),
        ) ==> r == Err::<String, RenameError>(RenameError::EmptyName),
        rel_path(vault_path@, old_path@) is Some && parent_of(old_path@) is Some && !blank(
            sanitized(new_name@),
        ) ==> {
            let np = renamed_path(old_path@, new_name@, is_dir);
            &&& rel_path(vault_path@, np) is None ==> r == Err::<String, RenameError>(
                RenameError::OutsideVault,
            )
            &&& rel_path(vault_path@, np) is Some ==> (r matches Ok(p) && p@ == np)
        },
{
    let vault = chars_of(vault_path);
    let old = chars_of(old_path);
    if rel_path_of(&vault, &old).is_none() {
        return Err(RenameError::OutsideVault);
    }
    let parent = match parent_exec(&old) {
        Some(p) => p,
        None => {
            return Err(RenameError::NoParent);
        },
    };
    let clean = sanitize_string(new_name);
    let c = chars_of(clean.as_str());
    if is_blank(&c) {
        return Err(RenameError::EmptyName);
    }
    let mut name = crate::path::copy_of(&c);
    if !is_dir && !crate::path::ends_with_md_exec(&c) {
        name.push('.');
        name.push('m');
        name.push('d');
        assert(name@ == c@ + seq!['.', 'm', 'd']);
    }
    let np = join_exec(&parent, &name);
    if rel_path_of(&vault, &np).is_none() {
        return Err(RenameError::OutsideVault);
    }
    Ok(to_string(&np))
}

/// The directory part of `q`.
fn parent_exec(q: &Vec<char>) -> (r: Option<Vec<char>>)
    ensures
        match r {
            Some(v) => parent_of(q@) == Some(v@),
            None => parent_of(q@) is None,
        },
{
    let t = crate::path::strip_tail_of(q);
    let p = &t;
    if p.len() == 0 || (p.len() == 1 && p[0] == '/') {
        assert(p.len() == 1 ==> p@ == seq!['/']);
        return None;
    }
    proof {
        if p@ == seq!['/'] {
            assert(p@[0] == '/');
        }
        crate::path::lemma_last_slash(p@);
    }
    let mut i: usize = p.len();
    while i > 0
        invariant
            i <= p.len(),
            p@ == strip_tail(q@),
            !(p@.len() == 0 || p@ == seq!['/']),
            forall|m: int| i <= m < p.len() ==> p@[m] != '/',
        decreases i,
    {
        if p[i - 1] == '/' {
            proof {
                crate::path::lemma_last_slash_at(p@, i - 1);
            }
            if i - 1 == 0 {
                let mut r: Vec<char> = Vec::new();
                r.push('/');
                assert(r@ == seq!['/']);
                return Some(r);
            }
            let mut r: Vec<char> = Vec::new();
            let mut j: usize = 0;
            while j < i - 1
                invariant
                    j <= i - 1,
                    i <= p.len(),
                    r@ == p@.subrange(0, j as int),
                decreases i - 1 - j,
            {
                r.push(p[j]);
                assert(p@.subrange(0, j + 1) == p@.subrange(0, j as int).push(p@[j as int]));
                j = j + 1;
            }
            return Some(r);
        }
        i = i - 1;
    }
    proof {
        crate::path::lemma_no_slash(p@);
    }
    Some(Vec::new())
}

/// `name` without every `.md` at its end.
pub open spec fn strip_md(name: Seq<char>) -> Seq<char>
    decreases name.len(),
{
    if name.len() >= 3 && ends_with_md(name) {
        strip_md(name.subrange(0, name.len() - 3))
    } else {
        name
    }
}

/// What comes before the first ` (` in `s`, or all of `s`.
pub open spec fn before_paren(s: Seq<char>) -> Seq<char>
    decreases s.len(),
{
    if s.len() == 0 {
        s
    } else if s.len() >= 2 && s[0] == ' ' && s[1] == '(' {
        seq![]
    } else {
        seq![s[0]] + before_paren(s.drop_first())
    }
}

/// The name of the directory that holds `p`, or `root`.
pub open spec fn parent_name(p: Seq<char>) -> Seq<char> {
    match parent_of(p) {
        Some(d) => if usable_name(file_name(d)) {
            file_name(d)
        } else {
            seq!['r', 'o', 'o', 't']
        },
        None => seq!['r', 'o', 'o', 't'],
    }
}

/// A last segment that names something: not empty, `.` or `..`.
pub open spec fn usable_name(n: Seq<char>) -> bool {
    n.len() > 0 && n != seq!['.'] && n != seq!['.', '.']
}

/// The name an item gets in the trash: its name, the name of the folder it
/// came from (cut at a ` (` left by an earlier trashing), and the time it was
/// trashed; a file keeps its `.md` at the end.
pub open spec fn trash_name(path: Seq<char>, is_dir: bool, timestamp: nat) -> Option<Seq<char>> {
    let name = file_name(path);
    if !usable_name(name) {
        None
    } else {
        let origin = seq![' ', '('] + before_paren(parent_name(path)) + seq![')', ' '] + decimal(
            timestamp,
        );
        if is_dir {
            Some(name + origin)
        } else {
            Some(strip_md(name) + origin + seq!['.', 'm', 'd'])
        }
    }
}

/// The name an item gets in the trash; none when its path has no usable
/// last segment.
pub fn generate_trash_name(path: &str, is_dir: bool, timestamp: u128) -> (r: Option<String>)
    ensures
        match r {
            Some(s) => trash_name(path@, is_dir, timestamp as nat) == Some(s@),
            None => trash_name(path@, is_dir, timestamp as nat) is None,
        },
{
    let p = chars_of(path);
    let name = file_name_of(&p);
    if !usable_exec(&name) {
        return None;
    }
    let parent = match parent_exec(&p) {
        Some(d) => {
            let n = file_name_of(&d);
            if usable_exec(&n) {
                n
            } else {
                root_chars()
            }
        },
        None => root_chars(),
    };
    let clean = before_paren_exec(&parent);
    let mut out: Vec<char> = Vec::new();
    if is_dir {
        push_all(&mut out, &name);
    } else {
        let stem = strip_md_exec(&name);
        push_all(&mut out, &stem);
    }
    let ghost head = out@;
    out.push(' ');
    out.push('(');
    push_all(&mut out, &clean);
    out.push(')');
    out.push(' ');
    push_decimal(&mut out, timestamp);
    if !is_dir {
        out.push('.');
        out.push('m');
        out.push('d');
    }
    proof {
        let origin = seq![' ', '('] + clean@ + seq![')', ' '] + decimal(timestamp as nat);
        if is_dir {
            assert(out@ =~= head + origin);
        } else {
            assert(out@ =~= head + origin + seq!['.', 'm', 'd']);
        }
    }
    Some(to_string(&out))
}

fn root_chars() -> (r: Vec<char>)
    ensures
        r@ == seq!['r', 'o', 'o', 't'],
{
    let mut r: Vec<char> = Vec::new();
    r.push('r');
    r.push('o');
    r.push('o');
    r.push('t');
    r
}

fn usable_exec(n: &Vec<char>) -> (r: bool)
    ensures
        r == usable_name(n@),
{
    if n.len() == 0 {
        return false;
    }
    if n.len() == 1 && n[0] == '.' {
        assert(n@ == seq!['.']);
        return false;
    }
    if n.len() == 2 && n[0] == '.' && n[1] == '.' {
        assert(n@ == seq!['.', '.']);
        return false;
    }
    proof {
        if n@ == seq!['.'] {
            assert(n@[0] == '.');
        }
        if n@ == seq!['.', '.'] {
            assert(n@[0] == '.' && n@[1] == '.');
        }
    }
    true
}

proof fn lemma_ends_with_md(s: Seq<char>)
    requires
        s.len() >= 3,
    ensures
        ends_with_md(s) <==> (s[s.len() - 3] == '.' && s[s.len() - 2] == 'm' && s[s.len() - 1]
            == 'd'),
{
    let t = s.subrange(s.len() - 3, s.len() as int);
    assert(t[0] == s[s.len() - 3] && t[1] == s[s.len() - 2] && t[2] == s[s.len() - 1]);
    if s[s.len() - 3] == '.' && s[s.len() - 2] == 'm' && s[s.len() - 1] == 'd' {
        assert(t =~= seq!['.', 'm', 'd']);
    }
}

#[verifier::rlimit(40)]
fn strip_md_exec(n: &Vec<char>) -> (r: Vec<char>)
    ensures
        r@ == strip_md(n@),
{
    let mut b: usize = n.len();
    assert(n@.subrange(0, b as int) == n@);
    while b >= 3 && n[b - 3] == '.' && n[b - 2] == 'm' && n[b - 1] == 'd'
        invariant
            b <= n.len(),
            strip_md(n@) == strip_md(n@.subrange(0, b as int)),
        decreases b,
    {
        proof {
            let s = n@.subrange(0, b as int);
            assert(s[s.len() - 3] == n@[b - 3]);
            assert(s[s.len() - 2] == n@[b - 2]);
            assert(s[s.len() - 1] == n@[b - 1]);
            lemma_ends_with_md(s);
            assert(s.subrange(0, s.len() - 3) =~= n@.subrange(0, b - 3));
        }
        b = b - 3;
    }
    proof {
        let s = n@.subrange(0, b as int);
        if s.len() >= 3 {
            assert(s[s.len() - 3] == n@[b - 3]);
            assert(s[s.len() - 2] == n@[b - 2]);
            assert(s[s.len() - 1] == n@[b - 1]);
            lemma_ends_with_md(s);
        }
    }
    let mut r: Vec<char> = Vec::new();
    let mut i: usize = 0;
    while i < b
        invariant
            i <= b <= n.len(),
            r@ == n@.subrange(0, i as int),
        decreases b - i,
    {
        r.push(n[i]);
        assert(n@.subrange(0, i + 1) == n@.subrange(0, i as int).push(n@[i as int]));
        i = i + 1;
    }
    r
}

fn before_paren_exec(s: &Vec<char>) -> (r: Vec<char>)
    ensures
        r@ == before_paren(s@),
{
    let mut i: usize = 0;
    let mut r: Vec<char> = Vec::new();
    assert(s@.subrange(0, s.len() as int) == s@);
    assert(r@ + before_paren(s@) == before_paren(s@));
    while i < s.len()
        invariant
            i <= s.len(),
            r@ == s@.subrange(0, i as int),
            before_paren(s@) == r@ + before_paren(s@.subrange(i as int, s.len() as int)),
        decreases s.len() - i,
    {
        let ghost rest = s@.subrange(i as int, s.len() as int);
        if i + 1 < s.len() && s[i] == ' ' && s[i + 1] == '(' {
            assert(before_paren(rest) == Seq::<char>::empty());
            assert(r@ + Seq::<char>::empty() == r@);
            return r;
        }
        assert(rest.drop_first() == s@.subrange(i + 1, s.len() as int));
        assert(before_paren(rest) == seq![s@[i as int]] + before_paren(rest.drop_first()));
        r.push(s[i]);
        assert(s@.subrange(0, i + 1) == s@.subrange(0, i as int).push(s@[i as int]));
        assert(r@ + before_paren(s@.subrange(i + 1, s.len() as int)) =~= s@.subrange(0, i as int)
            + (seq![s@[i as int]] + before_paren(s@.subrange(i + 1, s.len() as int))));
        i = i + 1;
    }
    assert(before_paren(s@.subrange(i as int, s.len() as int)) == Seq::<char>::empty());
    assert(r@ + Seq::<char>::empty() == r@);
    r
}

} // verus!
