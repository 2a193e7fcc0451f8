use vstd::prelude::*;

pub mod entity_tree;

verus! {

/// A value that may be present or explicitly absent.  In a patch it tells
/// "leave the field alone" (the outer `Option` is `None`) apart from "set the
/// field to this value, possibly to nothing" (`Some(Maybe { value })`).
#[derive(Debug, Clone)]
pub struct Maybe<T> {
    pub value: Option<T>,
}

/// A copy of an optional string, equal to it.
pub(crate) fn copy_opt_string(s: &Option<String>) -> (c: Option<String>)
    ensures
        c == *s,
{
    match s {
        Some(t) => Some(t.clone()),
        None => None,
    }
}

/// `prefix` followed by `detail`, as a new string.
pub(crate) fn concat(prefix: &str, detail: &str) -> (r: String)
    ensures
        r@ == prefix@ + detail@,
{
    let mut r = prefix.to_owned();
    r.append(detail);
    r
}

/// The character of a decimal digit.
pub open spec fn digit_char(d: nat) -> char {
    seq!['0', '1', '2', '3', '4', '5', '6', '7', '8', '9'][d as int]
}

/// The decimal rendering of a natural number: its digits, most significant
/// first, with no leading zero (zero itself is "0").
pub open spec fn decimal(n: nat) -> Seq<char>
    decreases n,
{
    if n < 10 {
        seq![digit_char(n)]
    } else {
        decimal(n / 10).push(digit_char(n % 10))
    }
}

/// The one-character text of a decimal digit.
fn digit_str(d: u32) -> (s: &'static str)
    requires
        d < 10,
    ensures
        s@ == seq![digit_char(d as nat)],
{
    if d == 0 {
        proof { reveal_strlit("0"); }
        "0"
    } else if d == 1 {
        proof { reveal_strlit("1"); }
        "1"
    } else if d == 2 {
        proof { reveal_strlit("2"); }
        "2"
    } else if d == 3 {
        proof { reveal_strlit("3"); }
        "3"
    } else if d == 4 {
        proof { reveal_strlit("4"); }
        "4"
    } else if d == 5 {
        proof { reveal_strlit("5"); }
        "5"
    } else if d == 6 {
        proof { reveal_strlit("6"); }
        "6"
    } else if d == 7 {
        proof { reveal_strlit("7"); }
        "7"
    } else if d == 8 {
        proof { reveal_strlit("8"); }
        "8"
    } else {
        proof { reveal_strlit("9"); }
        "9"
    }
}

/// The decimal text of a number, as `{}` formats it.
pub fn decimal_string(n: u32) -> (s: String)
    ensures
        s@ == decimal(n as nat),
    decreases n,
{
    if n < 10 {
        digit_str(n).to_owned()
    } else {
        let mut s = decimal_string(n / 10);
        s.append(digit_str(n % 10));
        s
    }
}

/// Whether `needle` occurs in `text` starting at position `at`.
pub open spec fn occurs_at(text: Seq<char>, needle: Seq<char>, at: int) -> bool {
    0 <= at && at + needle.len() <= text.len() && text.subrange(at, at + needle.len()) == needle
}

/// Whether `needle` occurs somewhere in `text`.
pub open spec fn contains_text(text: Seq<char>, needle: Seq<char>) -> bool {
    exists|at: int| occurs_at(text, needle, at)
}

/// Whether `needle` occurs in `text` at position `at`.
fn matches_at(text: &str, tlen: usize, needle: &str, nlen: usize, at: usize) -> (b: bool)
    requires
        tlen == text@.len(),
        nlen == needle@.len(),
        at + nlen <= tlen,
    ensures
        b == occurs_at(text@, needle@, at as int),
{
    let mut k: usize = 0;
    while k < nlen
        invariant
            tlen == text@.len(),
            nlen == needle@.len(),
            at + nlen <= tlen,
            k <= nlen,
            forall|j: int| 0 <= j < k ==> text@[at + j] == needle@[j],
        decreases nlen - k,
    {
        if text.get_char(at + k) != needle.get_char(k) {
            assert(text@.subrange(at as int, at + nlen)[k as int] != needle@[k as int]);
            return false;
        }
        k = k + 1;
    }
    assert(text@.subrange(at as int, at + nlen) =~= needle@);
    true
}

/// Whether `needle` occurs somewhere in `text`, as `str::contains` tells.
pub fn contains_str(text: &str, needle: &str) -> (b: bool)
    ensures
        b == contains_text(text@, needle@),
{
    let tlen = text.unicode_len();
    let nlen = needle.unicode_len();
    if nlen > tlen {
        return false;
    }
    if nlen == 0 {
        assert(occurs_at(text@, needle@, 0)) by {
            assert(text@.subrange(0, 0) =~= needle@);
        }
        return true;
    }
    let mut at: usize = 0;
    while at <= tlen - nlen
        invariant
            tlen == text@.len(),
            nlen == needle@.len(),
            0 < nlen <= tlen,
            at <= tlen - nlen + 1,
            forall|a: int| 0 <= a < at ==> !occurs_at(text@, needle@, a),
        decreases tlen + 1 - at,
    {
        if matches_at(text, tlen, needle, nlen, at) {
            return true;
        }
        at = at + 1;
    }
    assert forall|a: int| !occurs_at(text@, needle@, a) by {
        if 0 <= a < at {
        }
    }
    false
}

/// Whether two texts are equal, character by character.
pub fn same_text(a: &str, b: &str) -> (r: bool)
    ensures
        r == (a@ == b@),
{
    let alen = a.unicode_len();
    let blen = b.unicode_len();
    if alen != blen {
        return false;
    }
    if matches_at(a, alen, b, blen, 0) {
        assert(a@.subrange(0, alen as int) =~= a@);
        true
    } else {
        assert(a@.subrange(0, alen as int) =~= a@);
        false
    }
}

} // verus!
