//! Lexicographic order on strings, by character code point, together with
//! the executable comparison that the sorting code uses.

use vstd::prelude::*;

verus! {

/// True when `a` comes strictly before `b` in lexicographic order on
/// character code points.
pub open spec fn lex_lt(a: Seq<char>, b: Seq<char>) -> bool
    decreases a.len(),
{
    if b.len() == 0 {
        false
    } else if a.len() == 0 {
        true
    } else if a[0] == b[0] {
        lex_lt(a.skip(1), b.skip(1))
    } else {
        (a[0] as int) < (b[0] as int)
    }
}

/// Two sequences that each fail to come before the other are equal.
pub proof fn lemma_lex_connected(a: Seq<char>, b: Seq<char>)
    requires
        !lex_lt(a, b),
        !lex_lt(b, a),
    ensures
        a == b,
    decreases a.len(),
{
    if a.len() == 0 || b.len() == 0 {
        assert(a =~= b);
    } else if a[0] == b[0] {
        lemma_lex_connected(a.skip(1), b.skip(1));
        assert(a =~= b) by {
            assert(a.skip(1) =~= b.skip(1));
            assert(forall|i: int| 1 <= i < a.len() ==> a[i] == a.skip(1)[i - 1]);
        }
    } else {
        assert((a[0] as int) != (b[0] as int));
    }
}

/// The order is transitive.
pub proof fn lemma_lex_transitive(a: Seq<char>, b: Seq<char>, c: Seq<char>)
    requires
        lex_lt(a, b),
        lex_lt(b, c),
    ensures
        lex_lt(a, c),
    decreases a.len(),
{
    if a.len() == 0 {
        if c.len() == 0 {
            assert(b.len() > 0);
        }
    } else if b.len() > 0 && c.len() > 0 {
        if a[0] == b[0] && b[0] == c[0] {
            lemma_lex_transitive(a.skip(1), b.skip(1), c.skip(1));
        }
    }
}

/// Agreement on a prefix reduces the comparison to the remainders.
proof fn lemma_lex_common_prefix(a: Seq<char>, b: Seq<char>, i: int)
    requires
        0 <= i <= a.len(),
        0 <= i <= b.len(),
        forall|j: int| 0 <= j < i ==> a[j] == b[j],
    ensures
        lex_lt(a, b) == lex_lt(a.skip(i), b.skip(i)),
    decreases i,
{
    if i > 0 {
        assert(a.len() > 0 && b.len() > 0 && a[0] == b[0]);
        assert(lex_lt(a, b) == lex_lt(a.skip(1), b.skip(1)));
        lemma_lex_common_prefix(a.skip(1), b.skip(1), i - 1);
        assert(a.skip(1).skip(i - 1) =~= a.skip(i));
        assert(b.skip(1).skip(i - 1) =~= b.skip(i));
    } else {
        assert(a.skip(0) =~= a);
        assert(b.skip(0) =~= b);
    }
}

/// Decides whether `a` comes strictly before `b` in the order `lex_lt`.
pub fn str_lt(a: &str, b: &str) -> (r: bool)
    ensures
        r == lex_lt(a@, b@),
{
    let a_len = a.unicode_len();
    let b_len = b.unicode_len();
    let mut i: usize = 0;
    loop
        invariant
            0 <= i <= a_len,
            0 <= i <= b_len,
            a_len == a@.len(),
            b_len == b@.len(),
            forall|j: int| 0 <= j < i ==> a@[j] == b@[j],
        decreases a_len - i,
    {
        if i == a_len || i == b_len {
            proof {
                lemma_lex_common_prefix(a@, b@, i as int);
            }
            return a_len < b_len;
        }
        let ca = a.get_char(i);
        let cb = b.get_char(i);
        if ca != cb {
            proof {
                lemma_lex_common_prefix(a@, b@, i as int);
                assert(a@.skip(i as int)[0] == ca);
                assert(b@.skip(i as int)[0] == cb);
            }
            return (ca as u32) < (cb as u32);
        }
        i = i + 1;
    }
}

} // verus!
