//! Lexicographic order on character sequences, used to keep finding names and
//! unit names in a deterministic order in the rendered report.

use vstd::prelude::*;

verus! {

/// Strict lexicographic order on character sequences, by code point.
pub open spec fn lex_lt(a: Seq<char>, b: Seq<char>) -> bool
    decreases a.len(),
{
    if b.len() == 0 {
        false
    } else if a.len() == 0 {
        true
    } else if (a[0] as int) < (b[0] as int) {
        true
    } else if a[0] == b[0] {
        lex_lt(a.drop_first(), b.drop_first())
    } else {
        false
    }
}

pub proof fn lemma_lex_irreflexive(a: Seq<char>)
    ensures
        !lex_lt(a, a),
    decreases a.len(),
{
    if a.len() > 0 {
        lemma_lex_irreflexive(a.drop_first());
    }
}

pub proof fn lemma_lex_trichotomy(a: Seq<char>, b: Seq<char>)
    ensures
        lex_lt(a, b) || lex_lt(b, a) || a == b,
    decreases a.len(),
{
    if a.len() == 0 && b.len() == 0 {
        assert(a =~= b);
    } else if a.len() == 0 {
        assert(lex_lt(a, b));
    } else if b.len() == 0 {
        assert(lex_lt(b, a));
    } else if a[0] == b[0] {
        lemma_lex_trichotomy(a.drop_first(), b.drop_first());
        if a.drop_first() == b.drop_first() {
            assert(Seq::empty().push(a.first()).add(a.drop_first()) =~= a);
            assert(Seq::empty().push(b.first()).add(b.drop_first()) =~= b);
            assert(a == b);
        } else if lex_lt(a.drop_first(), b.drop_first()) {
            assert(lex_lt(a, b));
        } else {
            assert(lex_lt(b, a));
        }
    } else if (a[0] as int) < (b[0] as int) {
        assert(lex_lt(a, b));
    } else {
        assert((b[0] as int) < (a[0] as int));
        assert(lex_lt(b, a));
    }
}

pub proof fn lemma_lex_transitive(a: Seq<char>, b: Seq<char>, c: Seq<char>)
    requires
        lex_lt(a, b),
        lex_lt(b, c),
    ensures
        lex_lt(a, c),
    decreases a.len(),
{
    if a.len() > 0 && b.len() > 0 && c.len() > 0 && a[0] == b[0] && b[0] == c[0] {
        lemma_lex_transitive(a.drop_first(), b.drop_first(), c.drop_first());
    }
}

/// Relates the order of two sequences to their first point of difference.
proof fn lemma_lex_from_prefix(a: Seq<char>, b: Seq<char>, i: int)
    requires
        0 <= i <= a.len(),
        i <= b.len(),
        a.subrange(0, i) == b.subrange(0, i),
        (i < a.len() && i < b.len() && (a[i] as int) < (b[i] as int)) || (i == a.len() && i
            < b.len()),
    ensures
        lex_lt(a, b),
    decreases i,
{
    if i > 0 {
        assert(a.subrange(0, i)[0] == a[0]);
        assert(b.subrange(0, i)[0] == b[0]);
        assert(a[0] == b[0]);
        let a1 = a.drop_first();
        let b1 = b.drop_first();
        assert(a1.subrange(0, i - 1) =~= a.subrange(0, i).drop_first());
        assert(b1.subrange(0, i - 1) =~= b.subrange(0, i).drop_first());
        assert(a1.subrange(0, i - 1) == b1.subrange(0, i - 1));
        if i < a.len() {
            assert(a1[i - 1] == a[i]);
        }
        if i < b.len() {
            assert(b1[i - 1] == b[i]);
        }
        lemma_lex_from_prefix(a1, b1, i - 1);
        assert(lex_lt(a1, b1));
        assert(lex_lt(a, b));
    }
}

/// Three-way comparison of two strings in the order of `lex_lt`.
pub fn str_cmp(a: &str, b: &str) -> (r: i8)
    ensures
        -1 <= r <= 1,
        (r == -1) <==> lex_lt(a@, b@),
        (r == 0) <==> a@ == b@,
        (r == 1) <==> lex_lt(b@, a@),
{
    proof {
        lemma_lex_trichotomy(a@, b@);
        lemma_lex_irreflexive(a@);
        lemma_lex_irreflexive(b@);
        if lex_lt(a@, b@) && lex_lt(b@, a@) {
            lemma_lex_transitive(a@, b@, a@);
        }
    }
    let la = a.unicode_len();
    let lb = b.unicode_len();
    let min: usize = if la < lb {
        la
    } else {
        lb
    };
    let mut i: usize = 0;
    while i < min
        invariant
            min <= a@.len(),
            min <= b@.len(),
            la == a@.len(),
            lb == b@.len(),
            i <= min,
            a@.subrange(0, i as int) == b@.subrange(0, i as int),
        decreases min - i,
    {
        let ca = a.get_char(i);
        let cb = b.get_char(i);
        if (ca as u32) < (cb as u32) {
            proof {
                lemma_lex_from_prefix(a@, b@, i as int);
                lemma_lex_irreflexive(a@);
                if lex_lt(b@, a@) {
                    lemma_lex_transitive(a@, b@, a@);
                }
            }
            return -1;
        }
        if (cb as u32) < (ca as u32) {
            proof {
                lemma_lex_from_prefix(b@, a@, i as int);
                lemma_lex_irreflexive(b@);
                if lex_lt(a@, b@) {
                    lemma_lex_transitive(b@, a@, b@);
                }
            }
            return 1;
        }
        proof {
            assert(a@.subrange(0, i + 1) =~= a@.subrange(0, i as int).push(a@[i as int]));
            assert(b@.subrange(0, i + 1) =~= b@.subrange(0, i as int).push(b@[i as int]));
        }
        i = i + 1;
    }
    if la < lb {
        proof {
            lemma_lex_from_prefix(a@, b@, min as int);
        }
        -1
    } else if lb < la {
        proof {
            lemma_lex_from_prefix(b@, a@, min as int);
        }
        1
    } else {
        proof {
            assert(a@ =~= a@.subrange(0, min as int));
            assert(b@ =~= b@.subrange(0, min as int));
        }
        0
    }
}

/// Character-for-character string equality.
pub fn str_eq(a: &str, b: &str) -> (r: bool)
    ensures
        r == (a@ == b@),
{
    str_cmp(a, b) == 0
}

} // verus!
