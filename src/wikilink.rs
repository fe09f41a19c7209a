//! Wikilink extraction.
//!
//! A reference is written `[[target]]` or `[[target|alias]]` on one line. The
//! text between the brackets ends at the first `]]`; it is split at its first
//! `|`, and both parts are trimmed. A backslash directly before the opening
//! `[[` makes the whole reference a literal that yields no link. Text that
//! never closes yields nothing.
use vstd::prelude::*;
use crate::text::{
    chars_of, is_trimmed, lemma_trim_shape, lemma_trim_trimmed, opt_view, push_char, string_of,
    trim, trim_bounds,
};

verus! {

/// A reference found in a note: where it points, and the text shown for it.
#[derive(Debug, Clone, PartialEq, Eq)]
pub struct WikiLink {
    pub target: String,
    pub alias: Option<String>,
}

/// A link as plain values: its target and its alias, if any.
pub type LinkRef = (Seq<char>, Option<Seq<char>>);

impl View for WikiLink {
    type V = LinkRef;

    open spec fn view(&self) -> LinkRef {
        (self.target@, opt_view(self.alias))
    }
}

/// The links of `v` as plain values.
pub open spec fn links_view(v: Seq<WikiLink>) -> Seq<LinkRef> {
    v.map_values(|l: WikiLink| l@)
}

/// The position of the first `]]` at or after `k`, unless a line break comes first.
pub open spec fn close_at(s: Seq<char>, k: int) -> Option<int>
    decreases s.len() - k,
{
    if k < 0 || k + 1 >= s.len() {
        None
    } else if s[k] == '\n' {
        None
    } else if s[k] == ']' && s[k + 1] == ']' {
        Some(k)
    } else {
        close_at(s, k + 1)
    }
}

/// Whether `s` holds `[[` at position `i`.
pub open spec fn opens_at(s: Seq<char>, i: int) -> bool {
    0 <= i && i + 1 < s.len() && s[i] == '[' && s[i + 1] == '['
}

/// The reference that a left-to-right search finds starting exactly at `i`:
/// whether it is escaped, and where the text between its brackets begins and ends.
pub open spec fn match_at(s: Seq<char>, i: int) -> Option<(bool, int, int)> {
    if 0 <= i < s.len() && s[i] == '\\' && opens_at(s, i + 1) && close_at(s, i + 3) is Some {
        Some((true, i + 3, close_at(s, i + 3)->0))
    } else if opens_at(s, i) && close_at(s, i + 2) is Some {
        Some((false, i + 2, close_at(s, i + 2)->0))
    } else {
        None
    }
}

/// The position of the first `|` at or after `k`.
pub open spec fn pipe_from(t: Seq<char>, k: int) -> Option<int>
    decreases t.len() - k,
{
    if k < 0 || k >= t.len() {
        None
    } else if t[k] == '|' {
        Some(k)
    } else {
        pipe_from(t, k + 1)
    }
}

/// The link that the text between a reference's brackets denotes.
pub open spec fn link_of(inner: Seq<char>) -> LinkRef {
    match pipe_from(inner, 0) {
        Some(p) => (
            trim(inner.subrange(0, p)),
            Some(trim(inner.subrange(p + 1, inner.len() as int))),
        ),
        None => (trim(inner), None),
    }
}

/// The links found from position `i` on.
pub open spec fn scan(s: Seq<char>, i: int) -> Seq<LinkRef>
    decreases s.len() - i via scan_decreases
{
    if i < 0 || i >= s.len() {
        seq![]
    } else {
        match match_at(s, i) {
            Some(m) => if m.0 {
                scan(s, m.2 + 2)
            } else {
                seq![link_of(s.subrange(m.1, m.2))] + scan(s, m.2 + 2)
            },
            None => scan(s, i + 1),
        }
    }
}

/// The scan moves forward at every step.
#[via_fn]
pub proof fn scan_decreases(s: Seq<char>, i: int) {
    if !(i < 0 || i >= s.len()) {
        lemma_close_bounds(s, i + 2);
        lemma_close_bounds(s, i + 3);
    }
}

/// The links of a text, in order of appearance.
pub open spec fn extract(s: Seq<char>) -> Seq<LinkRef> {
    scan(s, 0)
}

/// The text between the brackets of a link written back out.
pub open spec fn link_body(l: LinkRef) -> Seq<char> {
    match l.1 {
        Some(a) => l.0 + seq!['|'] + a,
        None => l.0,
    }
}

/// A link written back out in bracket form.
pub open spec fn link_markup(l: LinkRef) -> Seq<char> {
    seq!['[', '['] + link_body(l) + seq![']', ']']
}

/// Links written back out one after another.
pub open spec fn markup(ls: Seq<LinkRef>) -> Seq<char>
    decreases ls.len(),
{
    if ls.len() == 0 {
        seq![]
    } else {
        markup(ls.drop_last()) + link_markup(ls.last())
    }
}

/// The written-out body of `l` does not end in `]`, which would merge with the
/// closing brackets.
pub open spec fn closes_cleanly(l: LinkRef) -> bool {
    let b = link_body(l);
    b.len() == 0 || b.last() != ']'
}

/// `s` holds no line break and no `]]` in `[lo, hi)`, where a `]]` may end at `hi`.
pub open spec fn clean_span(s: Seq<char>, lo: int, hi: int) -> bool {
    forall|m: int|
        lo <= m < hi ==> #[trigger] s[m] != '\n' && !(s[m] == ']' && s[m + 1] == ']')
}

/// No line break and no `]]` inside `t`.
pub open spec fn clean_text(t: Seq<char>) -> bool {
    &&& forall|m: int| 0 <= m < t.len() ==> t[m] != '\n'
    &&& forall|m: int| 0 <= m < t.len() - 1 ==> !(#[trigger] t[m] == ']' && t[m + 1] == ']')
}

/// No `|` in `t`.
pub open spec fn no_pipe(t: Seq<char>) -> bool {
    forall|m: int| 0 <= m < t.len() ==> t[m] != '|'
}

/// What every extracted link satisfies.
pub open spec fn well_formed(l: LinkRef) -> bool {
    &&& is_trimmed(l.0)
    &&& no_pipe(l.0)
    &&& clean_text(link_body(l))
    &&& match l.1 {
        Some(a) => is_trimmed(a),
        None => true,
    }
}

/// A reference opens at `i` with no backslash directly before it.
pub open spec fn unescaped_open(s: Seq<char>, i: int) -> bool {
    opens_at(s, i) && (i == 0 || s[i - 1] != '\\')
}

/// What a found closing `]]` satisfies.
pub proof fn lemma_close_bounds(s: Seq<char>, k: int)
    ensures
        close_at(s, k) is Some ==> {
            let c = close_at(s, k)->0;
            &&& 0 <= k <= c
            &&& c + 1 < s.len()
            &&& s[c] == ']' && s[c + 1] == ']'
            &&& clean_span(s, k, c)
        },
    decreases s.len() - k,
{
    if k < 0 || k + 1 >= s.len() {
    } else if s[k] == '\n' {
    } else if s[k] == ']' && s[k + 1] == ']' {
    } else {
        lemma_close_bounds(s, k + 1);
    }
}

/// The first `]]` on the line is found.
pub proof fn lemma_close_found(s: Seq<char>, k: int, c: int)
    requires
        0 <= k <= c,
        c + 1 < s.len(),
        s[c] == ']' && s[c + 1] == ']',
        clean_span(s, k, c),
    ensures
        close_at(s, k) == Some(c),
    decreases c - k,
{
    if k < c {
        lemma_close_found(s, k + 1, c);
    }
}

/// What a found `|` satisfies.
pub proof fn lemma_pipe_bounds(t: Seq<char>, k: int)
    requires
        0 <= k,
    ensures
        pipe_from(t, k) is Some ==> {
            let p = pipe_from(t, k)->0;
            &&& k <= p < t.len()
            &&& t[p] == '|'
            &&& forall|m: int| k <= m < p ==> t[m] != '|'
        },
        pipe_from(t, k) is None ==> forall|m: int| k <= m < t.len() ==> t[m] != '|',
    decreases t.len() - k,
{
    if k >= t.len() {
    } else if t[k] == '|' {
    } else {
        lemma_pipe_bounds(t, k + 1);
    }
}

/// The first `|` is found.
pub proof fn lemma_pipe_found(t: Seq<char>, k: int, p: int)
    requires
        0 <= k <= p < t.len(),
        t[p] == '|',
        forall|m: int| k <= m < p ==> t[m] != '|',
    ensures
        pipe_from(t, k) == Some(p),
    decreases p - k,
{
    if k < p {
        lemma_pipe_found(t, k + 1, p);
    }
}

/// Text with no `|` has none to find.
pub proof fn lemma_pipe_none(t: Seq<char>, k: int)
    requires
        0 <= k,
        forall|m: int| k <= m < t.len() ==> t[m] != '|',
    ensures
        pipe_from(t, k) is None,
    decreases t.len() - k,
{
    if k < t.len() {
        lemma_pipe_none(t, k + 1);
    }
}

/// A position from which the scan never starts inside an escaped reference.
pub open spec fn scan_start(s: Seq<char>, i: int) -> bool {
    i == 0 || s[i - 1] != '\\' || !(opens_at(s, i) && close_at(s, i + 2) is Some)
}

/// The text of the reference that opens at `i`, up to its closing brackets.
pub open spec fn inner_at(s: Seq<char>, i: int) -> Seq<char> {
    s.subrange(i + 2, close_at(s, i + 2)->0)
}

/// `l` is the link of a reference that opens, unescaped, at `lo` or later.
pub open spec fn found_unescaped(s: Seq<char>, lo: int, l: LinkRef) -> bool {
    exists|j: int|
        #![trigger inner_at(s, j)]
        lo <= j && unescaped_open(s, j) && close_at(s, j + 2) is Some && l == link_of(
            inner_at(s, j),
        )
}

proof fn lemma_scan_origins(s: Seq<char>, i: int)
    requires
        0 <= i,
        scan_start(s, i),
    ensures
        forall|k: int|
            0 <= k < scan(s, i).len() ==> found_unescaped(s, i, #[trigger] scan(s, i)[k]),
    decreases s.len() - i,
{
    if i >= s.len() {
        assert(scan(s, i).len() == 0);
    } else {
        lemma_close_bounds(s, i + 2);
        lemma_close_bounds(s, i + 3);
        match match_at(s, i) {
            Some(m) => {
                let next = m.2 + 2;
                assert(i < next);
                assert(s[next - 1] == ']');
                lemma_scan_origins(s, next);
                let rest = scan(s, next);
                if m.0 {
                    assert(scan(s, i) == rest);
                    assert forall|k: int| 0 <= k < scan(s, i).len() implies found_unescaped(
                        s,
                        i,
                        #[trigger] scan(s, i)[k],
                    ) by {
                        assert(found_unescaped(s, next, rest[k]));
                    }
                } else {
                    assert(scan(s, i) == seq![link_of(s.subrange(m.1, m.2))] + rest);
                    assert(unescaped_open(s, i));
                    assert forall|k: int| 0 <= k < scan(s, i).len() implies found_unescaped(
                        s,
                        i,
                        #[trigger] scan(s, i)[k],
                    ) by {
                        if k == 0 {
                            assert(inner_at(s, i) == s.subrange(m.1, m.2));
                            assert(scan(s, i)[0] == link_of(inner_at(s, i)));
                        } else {
                            assert(scan(s, i)[k] == rest[k - 1]);
                            assert(found_unescaped(s, next, rest[k - 1]));
                        }
                    }
                }
            },
            None => {
                assert(scan_start(s, i + 1));
                lemma_scan_origins(s, i + 1);
                let rest = scan(s, i + 1);
                assert(scan(s, i) == rest);
                assert forall|k: int| 0 <= k < scan(s, i).len() implies found_unescaped(
                    s,
                    i,
                    #[trigger] scan(s, i)[k],
                ) by {
                    assert(found_unescaped(s, i + 1, rest[k]));
                }
            },
        }
    }
}

/// An escaped reference never yields a link: every extracted link is the text
/// of a reference whose opening `[[` has no backslash directly before it.
pub proof fn lemma_escaped_never_extracted(s: Seq<char>)
    ensures
        forall|k: int|
            0 <= k < extract(s).len() ==> found_unescaped(s, 0, #[trigger] extract(s)[k]),
{
    lemma_scan_origins(s, 0);
}

/// Every link found in a clean span is well formed.
proof fn lemma_link_of_well_formed(inner: Seq<char>)
    requires
        clean_text(inner),
        inner.len() > 0 ==> inner.last() != ']',
    ensures
        well_formed(link_of(inner)),
{
    lemma_pipe_bounds(inner, 0);
    match pipe_from(inner, 0) {
        Some(p) => {
            let head = inner.subrange(0, p);
            let tail = inner.subrange(p + 1, inner.len() as int);
            lemma_trim_shape(head);
            lemma_trim_shape(tail);
            let (a1, b1) = choose|a: int, b: int|
                0 <= a <= b <= head.len() && trim(head) == head.subrange(a, b);
            let (a2, b2) = choose|a: int, b: int|
                0 <= a <= b <= tail.len() && trim(tail) == tail.subrange(a, b);
            let t = trim(head);
            let al = trim(tail);
            let body = t + seq!['|'] + al;
            assert(forall|m: int| 0 <= m < t.len() ==> t[m] == inner[m + a1]);
            assert(forall|m: int| 0 <= m < al.len() ==> al[m] == inner[m + a2 + p + 1]);
            assert forall|m: int| 0 <= m < body.len() implies body[m] != '\n' by {
                if m < t.len() {
                } else if m == t.len() {
                } else {
                    assert(body[m] == al[m - t.len() - 1]);
                }
            }
            assert forall|m: int| 0 <= m < body.len() - 1 implies !(#[trigger] body[m] == ']'
                && body[m + 1] == ']') by {
                if m + 1 < t.len() {
                } else if m + 1 == t.len() {
                } else if m == t.len() {
                } else {
                    assert(body[m] == al[m - t.len() - 1]);
                    assert(body[m + 1] == al[m + 1 - t.len() - 1]);
                }
            }
            assert(link_body(link_of(inner)) == body);
        },
        None => {
            lemma_trim_shape(inner);
            let (a1, b1) = choose|a: int, b: int|
                0 <= a <= b <= inner.len() && trim(inner) == inner.subrange(a, b);
            let t = trim(inner);
            assert(forall|m: int| 0 <= m < t.len() ==> t[m] == inner[m + a1]);
        },
    }
}

proof fn lemma_scan_well_formed(s: Seq<char>, i: int)
    requires
        0 <= i,
    ensures
        forall|k: int| 0 <= k < scan(s, i).len() ==> well_formed(#[trigger] scan(s, i)[k]),
    decreases s.len() - i,
{
    if i >= s.len() {
        assert(scan(s, i).len() == 0);
    } else {
        lemma_close_bounds(s, i + 2);
        lemma_close_bounds(s, i + 3);
        match match_at(s, i) {
            Some(m) => {
                let next = m.2 + 2;
                assert(i < next);
                lemma_scan_well_formed(s, next);
                let rest = scan(s, next);
                if m.0 {
                    assert(scan(s, i) == rest);
                } else {
                    let inner = s.subrange(m.1, m.2);
                    assert(forall|q: int| 0 <= q < inner.len() ==> inner[q] == s[q + m.1]);
                    lemma_link_of_well_formed(inner);
                    assert(scan(s, i) == seq![link_of(inner)] + rest);
                    assert forall|k: int| 0 <= k < scan(s, i).len() implies well_formed(
                        #[trigger] scan(s, i)[k],
                    ) by {
                        if k > 0 {
                            assert(scan(s, i)[k] == rest[k - 1]);
                        }
                    }
                }
            },
            None => {
                lemma_scan_well_formed(s, i + 1);
                assert(scan(s, i) == scan(s, i + 1));
            },
        }
    }
}

proof fn lemma_close_shift(x: Seq<char>, y: Seq<char>, j: int)
    requires
        0 <= j,
    ensures
        close_at(x + y, x.len() + j) == match close_at(y, j) {
            Some(c) => Some(c + x.len()),
            None => None,
        },
    decreases y.len() - j,
{
    let s = x + y;
    let k = x.len() + j;
    if j + 1 >= y.len() {
    } else {
        assert(s[k] == y[j] && s[k + 1] == y[j + 1]);
        if y[j] == '\n' {
        } else if y[j] == ']' && y[j + 1] == ']' {
        } else {
            lemma_close_shift(x, y, j + 1);
            assert(x.len() + j + 1 == k + 1);
        }
    }
}

proof fn lemma_scan_shift(x: Seq<char>, y: Seq<char>, j: int)
    requires
        0 <= j,
    ensures
        scan(x + y, x.len() + j) == scan(y, j),
    decreases y.len() - j,
{
    let s = x + y;
    let i = x.len() + j;
    if j >= y.len() {
    } else {
        lemma_close_shift(x, y, j + 2);
        lemma_close_shift(x, y, j + 3);
        lemma_close_bounds(y, j + 2);
        lemma_close_bounds(y, j + 3);
        assert(s[i] == y[j]);
        if j + 1 < y.len() {
            assert(s[i + 1] == y[j + 1]);
        }
        if j + 2 < y.len() {
            assert(s[i + 2] == y[j + 2]);
        }
        assert(opens_at(s, i) == opens_at(y, j));
        assert(opens_at(s, i + 1) == opens_at(y, j + 1));
        match match_at(y, j) {
            Some(m) => {
                assert(match_at(s, i) == Some((m.0, m.1 + x.len(), m.2 + x.len())));
                lemma_scan_shift(x, y, m.2 + 2);
                assert(s.subrange(m.1 + x.len(), m.2 + x.len()) == y.subrange(m.1, m.2));
                assert(x.len() + m.2 + 2 == m.2 + x.len() + 2);
            },
            None => {
                assert(match_at(s, i) is None);
                lemma_scan_shift(x, y, j + 1);
                assert(x.len() + j + 1 == i + 1);
            },
        }
    }
}

/// Reading back one written-out link followed by anything gives that link first.
proof fn lemma_scan_markup_head(l: LinkRef, rest: Seq<char>)
    requires
        well_formed(l),
        closes_cleanly(l),
    ensures
        scan(link_markup(l) + rest, 0) == seq![l] + scan(rest, 0),
{
    let b = link_body(l);
    let lm = link_markup(l);
    let s = lm + rest;
    let c: int = b.len() + 2int;
    assert(s[0] == '[' && s[1] == '[');
    assert(s[c] == ']' && s[c + 1] == ']');
    assert forall|m: int| 2 <= m < c implies #[trigger] s[m] != '\n' && !(s[m] == ']' && s[m + 1]
        == ']') by {
        assert(s[m] == b[m - 2]);
        if m + 1 < c {
            assert(s[m + 1] == b[m - 1]);
        }
    }
    lemma_close_found(s, 2, c);
    assert(match_at(s, 0) == Some((false, 2int, c)));
    assert(s.subrange(2, c) == b);
    // the body reads back as the link
    match l.1 {
        Some(a) => {
            assert(b[l.0.len() as int] == '|');
            assert(forall|m: int| 0 <= m < l.0.len() ==> b[m] == l.0[m]);
            lemma_pipe_found(b, 0, l.0.len() as int);
            assert(b.subrange(0, l.0.len() as int) == l.0);
            assert(b.subrange(l.0.len() + 1int, b.len() as int) == a);
            lemma_trim_trimmed(l.0);
            lemma_trim_trimmed(a);
        },
        None => {
            lemma_pipe_none(b, 0);
            lemma_trim_trimmed(l.0);
        },
    }
    assert(link_of(b) == l);
    lemma_scan_shift(lm, rest, 0);
    assert(lm.len() + 0 == c + 2);
}

proof fn lemma_markup_prepend(l: LinkRef, ls: Seq<LinkRef>)
    ensures
        markup(seq![l] + ls) == link_markup(l) + markup(ls),
    decreases ls.len(),
{
    if ls.len() == 0 {
        assert(seq![l] + ls == seq![l]);
        assert(seq![l].drop_last() == Seq::<LinkRef>::empty());
        assert(markup(seq![l]) == markup(Seq::<LinkRef>::empty()) + link_markup(l));
        assert(link_markup(l) + markup(ls) == link_markup(l));
    } else {
        lemma_markup_prepend(l, ls.drop_last());
        assert((seq![l] + ls).drop_last() == seq![l] + ls.drop_last());
        assert((seq![l] + ls).last() == ls.last());
    }
}

proof fn lemma_read_back(ls: Seq<LinkRef>)
    requires
        forall|k: int| 0 <= k < ls.len() ==> well_formed(#[trigger] ls[k]) && closes_cleanly(ls[k]),
    ensures
        extract(markup(ls)) == ls,
    decreases ls.len(),
{
    if ls.len() == 0 {
        assert(markup(ls) == Seq::<char>::empty());
    } else {
        let head = ls[0];
        let tail = ls.drop_first();
        assert(ls == seq![head] + tail);
        lemma_markup_prepend(head, tail);
        lemma_read_back(tail);
        lemma_scan_markup_head(head, markup(tail));
    }
}

/// Extraction is stable: writing the extracted links back out in bracket form
/// and extracting again gives the same links, in the same order, whenever no
/// written-out link ends in a `]` that would run into its closing brackets.
pub proof fn lemma_extract_render_round_trip(s: Seq<char>)
    requires
        forall|k: int| 0 <= k < extract(s).len() ==> closes_cleanly(#[trigger] extract(s)[k]),
    ensures
        extract(markup(extract(s))) == extract(s),
{
    lemma_scan_well_formed(s, 0);
    lemma_read_back(extract(s));
}

/// The first `]]` at or after `k` on the same line.
fn find_close(s: &Vec<char>, k: usize) -> (r: Option<usize>)
    requires
        k <= s.len(),
    ensures
        match r {
            Some(c) => close_at(s@, k as int) == Some(c as int),
            None => close_at(s@, k as int) is None,
        },
{
    let mut j: usize = k;
    while j < s.len() && j + 1 < s.len()
        invariant
            k <= j <= s.len(),
            close_at(s@, k as int) == close_at(s@, j as int),
        decreases s.len() - j,
    {
        if s[j] == '\n' {
            return None;
        }
        if s[j] == ']' && s[j + 1] == ']' {
            return Some(j);
        }
        j = j + 1;
    }
    None
}

/// The first `|` in `s[lo..hi]`.
fn find_pipe(s: &Vec<char>, lo: usize, hi: usize) -> (r: Option<usize>)
    requires
        lo <= hi <= s.len(),
    ensures
        match r {
            Some(p) => lo <= p < hi && pipe_from(s@.subrange(lo as int, hi as int), 0) == Some(
                p - lo,
            ),
            None => pipe_from(s@.subrange(lo as int, hi as int), 0) is None,
        },
{
    let ghost t = s@.subrange(lo as int, hi as int);
    let mut j: usize = lo;
    while j < hi
        invariant
            lo <= j <= hi <= s.len(),
            t == s@.subrange(lo as int, hi as int),
            pipe_from(t, 0) == pipe_from(t, j - lo),
        decreases hi - j,
    {
        assert(t[j - lo] == s@[j as int]);
        if s[j] == '|' {
            return Some(j);
        }
        j = j + 1;
    }
    None
}

/// The link denoted by the text `s[lo..hi]` between a reference's brackets.
fn link_from(s: &Vec<char>, lo: usize, hi: usize) -> (r: WikiLink)
    requires
        lo <= hi <= s.len(),
    ensures
        r@ == link_of(s@.subrange(lo as int, hi as int)),
{
    let ghost inner = s@.subrange(lo as int, hi as int);
    match find_pipe(s, lo, hi) {
        Some(p) => {
            assert(inner.subrange(0, p - lo) == s@.subrange(lo as int, p as int));
            assert(inner.subrange(p - lo + 1, inner.len() as int) == s@.subrange(
                p + 1,
                hi as int,
            ));
            let (a, b) = trim_bounds(s, lo, p);
            let (c, d) = trim_bounds(s, p + 1, hi);
            WikiLink { target: string_of(s, a, b), alias: Some(string_of(s, c, d)) }
        },
        None => {
            let (a, b) = trim_bounds(s, lo, hi);
            WikiLink { target: string_of(s, a, b), alias: None }
        },
    }
}

/// Extracts the wikilinks of a note's text, in order of appearance.
pub fn extract_wikilinks(content: &str) -> (links: Vec<WikiLink>)
    ensures
        links_view(links@) == extract(content@),
{
    let s = chars_of(content);
    let mut links: Vec<WikiLink> = Vec::new();
    let mut i: usize = 0;
    while i < s.len()
        invariant
            i <= s.len(),
            s@ == content@,
            links_view(links@) + scan(s@, i as int) == extract(s@),
        decreases s.len() - i,
    {
        let ghost old_links = links@;
        proof {
            lemma_close_bounds(s@, i + 2);
            lemma_close_bounds(s@, i + 3);
        }
        let mut next: usize = i + 1;
        if s[i] == '\\' && i + 1 < s.len() && i + 2 < s.len() && s[i + 1] == '[' && s[i + 2] == '[' {
            if let Some(c) = find_close(&s, i + 3) {
                next = c + 2;
            }
        } else if i + 1 < s.len() && s[i] == '[' && s[i + 1] == '[' {
            if let Some(c) = find_close(&s, i + 2) {
                let link = link_from(&s, i + 2, c);
                links.push(link);
                next = c + 2;
                assert(links_view(links@) == links_view(old_links) + seq![link@]);
            }
        }
        i = next;
    }
    assert(links_view(links@) + scan(s@, i as int) == links_view(links@));
    links
}

/// Writes links back out in bracket form, one after another.
pub fn render_wikilinks(links: &Vec<WikiLink>) -> (r: String)
    ensures
        r@ == markup(links_view(links@)),
{
    let mut r = String::new();
    let mut i: usize = 0;
    while i < links.len()
        invariant
            i <= links.len(),
            r@ == markup(links_view(links@).take(i as int)),
        decreases links.len() - i,
    {
        let l = &links[i];
        let t = chars_of(l.target.as_str());
        push_char(&mut r, '[');
        push_char(&mut r, '[');
        let mut j: usize = 0;
        let ghost start = r@;
        while j < t.len()
            invariant
                j <= t.len(),
                r@ == start + t@.take(j as int),
            decreases t.len() - j,
        {
            push_char(&mut r, t[j]);
            assert(t@.take(j + 1) == t@.take(j as int).push(t@[j as int]));
            j = j + 1;
        }
        assert(t@.take(t.len() as int) == t@);
        match &l.alias {
            Some(a) => {
                push_char(&mut r, '|');
                let av = chars_of(a.as_str());
                let ghost mid = r@;
                let mut k: usize = 0;
                while k < av.len()
                    invariant
                        k <= av.len(),
                        r@ == mid + av@.take(k as int),
                    decreases av.len() - k,
                {
                    push_char(&mut r, av[k]);
                    assert(av@.take(k + 1) == av@.take(k as int).push(av@[k as int]));
                    k = k + 1;
                }
                assert(av@.take(av.len() as int) == av@);
            },
            None => {},
        }
        push_char(&mut r, ']');
        push_char(&mut r, ']');
        let ghost lv = links_view(links@);
        assert(lv.take(i + 1).drop_last() == lv.take(i as int));
        assert(lv.take(i + 1).last() == links@[i as int]@);
        assert(r@ == markup(lv.take(i as int)) + link_markup(links@[i as int]@));
        i = i + 1;
    }
    assert(links_view(links@).take(links.len() as int) == links_view(links@));
    r
}

} // verus!
