//! Order and case-insensitive equality of text, character by character.
//!
//! Names and timestamps are ordered by code point, which is the order of
//! their UTF-8 bytes and the one that Rust gives `str`. Categories are
//! compared after lower-casing the letters `A` to `Z` and no others, so that
//! `Cheap` and `CHEAP` are one category while letters outside ASCII must
//! agree exactly.

use std::str::Chars;
use vstd::prelude::*;
use vstd::std_specs::iter::IteratorSpec;

verus! {

/// `a` sorts strictly before `b`: at the first position where they differ `a`
/// has the smaller character (by code point), or `a` is a proper prefix of `b`.
pub open spec fn text_lt(a: Seq<char>, b: Seq<char>) -> bool
    decreases a.len(),
{
    if b.len() == 0 {
        false
    } else if a.len() == 0 {
        true
    } else if a[0] != b[0] {
        a[0] < b[0]
    } else {
        text_lt(a.drop_first(), b.drop_first())
    }
}

/// No text sorts before itself.
pub proof fn lemma_lt_irreflexive(a: Seq<char>)
    ensures
        !text_lt(a, a),
    decreases a.len(),
{
    if a.len() > 0 {
        lemma_lt_irreflexive(a.drop_first());
    }
}

/// The order is transitive.
pub proof fn lemma_lt_transitive(a: Seq<char>, b: Seq<char>, c: Seq<char>)
    requires
        text_lt(a, b),
        text_lt(b, c),
    ensures
        text_lt(a, c),
    decreases a.len(),
{
    if a.len() > 0 && a[0] == b[0] && b[0] == c[0] {
        lemma_lt_transitive(a.drop_first(), b.drop_first(), c.drop_first());
    }
}

/// Of two different texts one sorts before the other.
pub proof fn lemma_lt_total(a: Seq<char>, b: Seq<char>)
    ensures
        text_lt(a, b) || text_lt(b, a) || a == b,
    decreases a.len(),
{
    if a.len() == 0 || b.len() == 0 {
        if a.len() == b.len() {
            assert(a =~= b);
        }
    } else if a[0] == b[0] {
        lemma_lt_total(a.drop_first(), b.drop_first());
        if a.drop_first() == b.drop_first() {
            assert(a =~= seq![a[0]] + a.drop_first());
            assert(b =~= seq![b[0]] + b.drop_first());
        }
    }
}

/// No two texts sort before each other.
pub proof fn lemma_lt_asymmetric(a: Seq<char>, b: Seq<char>)
    requires
        text_lt(a, b),
    ensures
        !text_lt(b, a),
{
    if text_lt(b, a) {
        lemma_lt_transitive(a, b, a);
        lemma_lt_irreflexive(a);
    }
}

/// "Not before" is transitive too: it is the order read the other way round,
/// equality included.
pub proof fn lemma_not_lt_transitive(a: Seq<char>, b: Seq<char>, c: Seq<char>)
    requires
        !text_lt(a, b),
        !text_lt(b, c),
    ensures
        !text_lt(a, c),
{
    if text_lt(a, c) {
        lemma_lt_total(a, b);
        lemma_lt_total(b, c);
        if a == b || b == c {
        } else {
            lemma_lt_transitive(c, b, a);
            lemma_lt_asymmetric(c, a);
        }
    }
}

/// Two texts are equal exactly when both are empty, or their heads and their
/// tails are equal.
pub proof fn lemma_equal_unfolds(a: Seq<char>, b: Seq<char>)
    ensures
        a.len() == 0 && b.len() == 0 ==> a == b,
        (a.len() == 0) != (b.len() == 0) ==> a != b,
        a.len() > 0 && b.len() > 0 ==> (a == b <==> a[0] == b[0] && a.drop_first()
            == b.drop_first()),
{
    if a.len() == 0 && b.len() == 0 {
        assert(a =~= b);
    } else if a.len() > 0 && b.len() > 0 && a[0] == b[0] && a.drop_first() == b.drop_first() {
        assert(a =~= seq![a[0]] + a.drop_first());
        assert(b =~= seq![b[0]] + b.drop_first());
    }
}

/// Decides equality of two strings' texts.
pub fn same_text(a: &str, b: &str) -> (r: bool)
    ensures
        r == (a@ == b@),
{
    let mut left: Chars = a.chars();
    let mut right: Chars = b.chars();
    loop
        invariant
            (a@ == b@) == (left.remaining() == right.remaining()),
            left.obeys_prophetic_iter_laws(),
            right.obeys_prophetic_iter_laws(),
            left.decrease() is Some,
        decreases left.decrease()->0,
    {
        proof {
            lemma_equal_unfolds(left.remaining(), right.remaining());
        }
        let x = left.next();
        let y = right.next();
        match (x, y) {
            (None, None) => {
                return true;
            },
            (Some(c), Some(d)) => {
                if c != d {
                    return false;
                }
            },
            _ => {
                return false;
            },
        }
    }
}

/// Decides [`text_lt`] on two strings.
pub fn precedes(a: &str, b: &str) -> (r: bool)
    ensures
        r == text_lt(a@, b@),
{
    let mut left: Chars = a.chars();
    let mut right: Chars = b.chars();
    loop
        invariant
            text_lt(a@, b@) == text_lt(left.remaining(), right.remaining()),
            left.obeys_prophetic_iter_laws(),
            right.obeys_prophetic_iter_laws(),
            left.decrease() is Some,
        decreases left.decrease()->0,
    {
        let x = left.next();
        let y = right.next();
        match (x, y) {
            (_, None) => {
                return false;
            },
            (None, Some(_)) => {
                return true;
            },
            (Some(c), Some(d)) => {
                if c != d {
                    return c < d;
                }
            },
        }
    }
}

/// The code point of `c` with the letters `A` to `Z` moved onto `a` to `z`;
/// every other character keeps its own.
pub open spec fn ascii_lower(c: char) -> char {
    if 'A' <= c && c <= 'Z' {
        ((c as u32) + 32) as char
    } else {
        c
    }
}

/// `s` with each character lower-cased by [`ascii_lower`].
pub open spec fn lowered(s: Seq<char>) -> Seq<char> {
    s.map_values(|c: char| ascii_lower(c))
}

/// `a` and `b` are the same text once both are lower-cased.
pub open spec fn same_ignoring_case(a: Seq<char>, b: Seq<char>) -> bool {
    lowered(a) == lowered(b)
}

/// Lower-casing works position by position, so two texts agree after it
/// exactly when their heads and their tails do.
pub proof fn lemma_lowered_unfolds(a: Seq<char>, b: Seq<char>)
    ensures
        (a.len() == 0) != (b.len() == 0) ==> !same_ignoring_case(a, b),
        a.len() == 0 && b.len() == 0 ==> same_ignoring_case(a, b),
        a.len() > 0 && b.len() > 0 ==> (same_ignoring_case(a, b) <==> ascii_lower(a[0])
            == ascii_lower(b[0]) && same_ignoring_case(a.drop_first(), b.drop_first())),
{
    let la = lowered(a);
    let lb = lowered(b);
    if a.len() == 0 || b.len() == 0 {
        if a.len() == b.len() {
            assert(la =~= lb);
        } else {
            assert(la.len() != lb.len());
        }
    } else {
        let ta = lowered(a.drop_first());
        let tb = lowered(b.drop_first());
        assert(la[0] == ascii_lower(a[0]));
        assert(lb[0] == ascii_lower(b[0]));
        assert(ta =~= la.drop_first());
        assert(tb =~= lb.drop_first());
        if ascii_lower(a[0]) == ascii_lower(b[0]) && ta == tb {
            assert(la =~= seq![la[0]] + la.drop_first());
            assert(lb =~= seq![lb[0]] + lb.drop_first());
        }
    }
}

/// Lower-cases one character as [`ascii_lower`] does.
pub fn to_ascii_lower(c: char) -> (r: char)
    ensures
        r == ascii_lower(c),
{
    if 'A' <= c && c <= 'Z' {
        let code: u8 = c as u8;
        (code + 32) as char
    } else {
        c
    }
}

/// Decides [`same_ignoring_case`] on two strings.
pub fn equals_ignoring_case(a: &str, b: &str) -> (r: bool)
    ensures
        r == same_ignoring_case(a@, b@),
{
    let mut left: Chars = a.chars();
    let mut right: Chars = b.chars();
    loop
        invariant
            same_ignoring_case(a@, b@) == same_ignoring_case(
                left.remaining(),
                right.remaining(),
            ),
            left.obeys_prophetic_iter_laws(),
            right.obeys_prophetic_iter_laws(),
            left.decrease() is Some,
        decreases left.decrease()->0,
    {
        proof {
            lemma_lowered_unfolds(left.remaining(), right.remaining());
        }
        let x = left.next();
        let y = right.next();
        match (x, y) {
            (None, None) => {
                return true;
            },
            (Some(c), Some(d)) => {
                if to_ascii_lower(c) != to_ascii_lower(d) {
                    return false;
                }
            },
            _ => {
                return false;
            },
        }
    }
}

} // verus!
