//! Cleaning user-typed names before they become file or folder names.
use vstd::prelude::*;
use crate::text::{alphanumeric, chars_of, is_alphanumeric, string_of};

verus! {

/// Characters a name may keep: letters and digits, space, `-`, `_`, `(`, `)`
/// and `.`.
pub open spec fn allowed(c: char) -> bool {
    alphanumeric(c) || c == ' ' || c == '-' || c == '_' || c == '(' || c == ')' || c == '.'
}

/// The allowed characters of `s`, in order.
pub open spec fn keep_allowed(s: Seq<char>) -> Seq<char>
    decreases s.len(),
{
    if s.len() == 0 {
        seq![]
    } else if allowed(s.last()) {
        keep_allowed(s.drop_last()).push(s.last())
    } else {
        keep_allowed(s.drop_last())
    }
}

/// `s` without the dots and spaces at its end.
pub open spec fn strip_trailing_dots(s: Seq<char>) -> Seq<char>
    decreases s.len(),
{
    if s.len() > 0 && (s.last() == '.' || s.last() == ' ') {
        strip_trailing_dots(s.drop_last())
    } else {
        s
    }
}

/// A name with only allowed characters, and no dot or space at its end.
pub open spec fn sanitized(s: Seq<char>) -> Seq<char> {
    strip_trailing_dots(keep_allowed(s))
}

/// Keeps the allowed characters of `s`, then drops the dots and spaces at
/// its end.
pub fn sanitize_string(s: String) -> (r: String)
    ensures
        r@ == sanitized(s@),
{
    let v = chars_of(s.as_str());
    let mut kept: Vec<char> = Vec::new();
    let mut i: usize = 0;
    while i < v.len()
        invariant
            i <= v.len(),
            v@ == s@,
            kept@ == keep_allowed(v@.take(i as int)),
        decreases v.len() - i,
    {
        let c = v[i];
        assert(v@.take(i + 1).drop_last() == v@.take(i as int));
        if is_alphanumeric(c) || c == ' ' || c == '-' || c == '_' || c == '(' || c == ')' || c
            == '.' {
            kept.push(c);
        }
        i = i + 1;
    }
    assert(v@.take(v.len() as int) == v@);
    let mut b: usize = kept.len();
    assert(kept@.subrange(0, b as int) == kept@);
    while b > 0 && (kept[b - 1] == '.' || kept[b - 1] == ' ')
        invariant
            b <= kept.len(),
            strip_trailing_dots(kept@) == strip_trailing_dots(kept@.subrange(0, b as int)),
        decreases b,
    {
        assert(kept@.subrange(0, b as int).drop_last() == kept@.subrange(0, b - 1));
        b = b - 1;
    }
    string_of(&kept, 0, b)
}

} // verus!
