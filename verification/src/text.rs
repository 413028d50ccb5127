//! Comparison of text, character by character.

use vstd::prelude::*;

verus! {

/// `a` comes strictly before `b` in lexicographic order of their characters.
/// This is the order of `str`'s `Ord`, which compares the UTF-8 bytes: UTF-8
/// keeps the order of code points.
pub open spec fn lex_lt(a: Seq<char>, b: Seq<char>) -> bool {
    exists|k: int|
        0 <= k <= a.len() && k <= b.len() && #[trigger] a.take(k) == b.take(k) && (
        (k == a.len() && k < b.len()) || (k < a.len() && k < b.len() && (a[k] as u32) < (b[k]
            as u32)))
}

proof fn lemma_prefix_agrees(a: Seq<char>, b: Seq<char>, k: int, j: int)
    requires
        0 <= j < k <= a.len(),
        k <= b.len(),
        a.take(k) == b.take(k),
    ensures
        a[j] == b[j],
{
    assert(a.take(k)[j] == a[j]);
    assert(b.take(k)[j] == b[j]);
}

/// When `a` and `b` agree on their first `i` characters and differ at `i`,
/// the one with the smaller character comes first, and not the other way.
proof fn lemma_lex_at(a: Seq<char>, b: Seq<char>, i: int)
    requires
        0 <= i < a.len(),
        i < b.len(),
        a.take(i) == b.take(i),
        (a[i] as u32) < (b[i] as u32),
    ensures
        lex_lt(a, b),
        !lex_lt(b, a),
        a != b,
{
    assert(a.take(i) == b.take(i));
    if lex_lt(b, a) {
        let k = choose|k: int|
            0 <= k <= b.len() && k <= a.len() && #[trigger] b.take(k) == a.take(k) && (
            (k == b.len() && k < a.len()) || (k < b.len() && k < a.len() && (b[k] as u32) < (
            a[k] as u32)));
        if k <= i {
            if k < i {
                lemma_prefix_agrees(a, b, i, k);
            }
        } else {
            lemma_prefix_agrees(b, a, k, i);
        }
    }
    assert(a[i] != b[i]);
}

/// When `a` is a strict prefix of `b`, `a` comes first and not the other way.
proof fn lemma_lex_prefix(a: Seq<char>, b: Seq<char>)
    requires
        a.len() < b.len(),
        b.take(a.len() as int) == a,
    ensures
        lex_lt(a, b),
        !lex_lt(b, a),
        a != b,
{
    assert(a.take(a.len() as int) == a);
    assert(a.take(a.len() as int) == b.take(a.len() as int));
    if lex_lt(b, a) {
        let k = choose|k: int|
            0 <= k <= b.len() && k <= a.len() && #[trigger] b.take(k) == a.take(k) && (
            (k == b.len() && k < a.len()) || (k < b.len() && k < a.len() && (b[k] as u32) < (
            a[k] as u32)));
        lemma_prefix_agrees(a, b, a.len() as int, k);
    }
}

/// No text comes strictly before itself.
pub proof fn lemma_lex_irreflexive(a: Seq<char>)
    ensures
        !lex_lt(a, a),
{
}

/// Lexicographic order is transitive.
pub proof fn lemma_lex_transitive(a: Seq<char>, b: Seq<char>, c: Seq<char>)
    requires
        lex_lt(a, b),
        lex_lt(b, c),
    ensures
        lex_lt(a, c),
{
    let k1 = choose|k: int|
        0 <= k <= a.len() && k <= b.len() && #[trigger] a.take(k) == b.take(k) && (
        (k == a.len() && k < b.len()) || (k < a.len() && k < b.len() && (a[k] as u32) < (b[k]
            as u32)));
    let k2 = choose|k: int|
        0 <= k <= b.len() && k <= c.len() && #[trigger] b.take(k) == c.take(k) && (
        (k == b.len() && k < c.len()) || (k < b.len() && k < c.len() && (b[k] as u32) < (c[k]
            as u32)));
    let k = if k1 < k2 {
        k1
    } else {
        k2
    };
    assert forall|j: int| 0 <= j < k implies a[j] == c[j] by {
        lemma_prefix_agrees(a, b, k1, j);
        lemma_prefix_agrees(b, c, k2, j);
    }
    assert(a.take(k) == c.take(k));
    if k1 < k2 {
        if k1 < a.len() {
            lemma_prefix_agrees(b, c, k2, k1);
        }
    } else if k2 < k1 {
        lemma_prefix_agrees(a, b, k1, k2);
    } else {
    }
}

/// Whether two texts hold the same characters.
pub fn str_eq(a: &str, b: &str) -> (r: bool)
    ensures
        r == (a@ == b@),
{
    str_compare(a, b) == 0
}

/// Three-way comparison of two texts in lexicographic order: negative when
/// `a` comes first, zero when they are equal, positive when `b` comes first.
pub fn str_compare(a: &str, b: &str) -> (r: i8)
    ensures
        r < 0 <==> lex_lt(a@, b@),
        r == 0 <==> a@ == b@,
        r > 0 <==> lex_lt(b@, a@),
        -1 <= r <= 1,
{
    let la = a.unicode_len();
    let lb = b.unicode_len();
    let mut i: usize = 0;
    while i < la && i < lb
        invariant
            la == a@.len(),
            lb == b@.len(),
            i <= la,
            i <= lb,
            a@.take(i as int) == b@.take(i as int),
        decreases la - i,
    {
        let ca = a.get_char(i);
        let cb = b.get_char(i);
        if (ca as u32) < (cb as u32) {
            proof {
                lemma_lex_at(a@, b@, i as int);
            }
            return -1;
        }
        if (cb as u32) < (ca as u32) {
            proof {
                lemma_lex_at(b@, a@, i as int);
            }
            return 1;
        }
        proof {
            assert((ca as u32) == (cb as u32));
            assert(a@.take(i + 1) == a@.take(i as int).push(ca));
            assert(b@.take(i + 1) == b@.take(i as int).push(cb));
        }
        i = i + 1;
    }
    if la < lb {
        proof {
            assert(a@.take(i as int) == a@);
            lemma_lex_prefix(a@, b@);
        }
        -1
    } else if lb < la {
        proof {
            assert(b@.take(i as int) == b@);
            lemma_lex_prefix(b@, a@);
        }
        1
    } else {
        proof {
            assert(a@.take(i as int) == a@);
            assert(b@.take(i as int) == b@);
            if lex_lt(a@, b@) {
                let k = choose|k: int|
                    0 <= k <= a@.len() && k <= b@.len() && #[trigger] a@.take(k) == b@.take(k) && (
                    (k == a@.len() && k < b@.len()) || (k < a@.len() && k < b@.len() && (a@[k]
                        as u32) < (b@[k] as u32)));
                assert(a@[k] == b@[k]);
            }
            if lex_lt(b@, a@) {
                let k = choose|k: int|
                    0 <= k <= b@.len() && k <= a@.len() && #[trigger] b@.take(k) == a@.take(k) && (
                    (k == b@.len() && k < a@.len()) || (k < b@.len() && k < a@.len() && (b@[k]
                        as u32) < (a@[k] as u32)));
                assert(a@[k] == b@[k]);
            }
        }
        0
    }
}

} // verus!
