//! Sanitization of log references before they are used as cache-path
//! segments: a reference may contain `./` sequences, a trailing `.` or a
//! leading `/` that would produce a colliding or escaping filesystem path.
//! Every `.` is rewritten to `%2E` and a leading `/` to `%2F`, with `%`
//! itself doubled so that no ordinary reference can imitate a rewritten
//! one: the mapping is injective, so distinct references never share a
//! cache path, and its image holds no `.` at all.

use vstd::prelude::*;

use vstd::string::StringExecFns;
use vstd::string::StrSliceExecFns;

verus! {

/// The escaped form of one character: `%` doubles, `.` becomes `%2E`,
/// every other character stands for itself.
pub open spec fn esc_char(c: char) -> Seq<char> {
    if c == '%' {
        seq!['%', '%']
    } else if c == '.' {
        seq!['%', '2', 'E']
    } else {
        seq![c]
    }
}

/// The character-by-character escape of a whole reference.
pub open spec fn escape_chars(r: Seq<char>) -> Seq<char>
    decreases r.len(),
{
    if r.len() == 0 {
        Seq::empty()
    } else {
        esc_char(r[0]) + escape_chars(r.drop_first())
    }
}

/// The sanitized form of a log reference: a leading `/` becomes the marker
/// `%2F` so that the result never escapes the cache directory, and the rest
/// is escaped character by character.
pub open spec fn sanitize_spec(r: Seq<char>) -> Seq<char> {
    if r.len() > 0 && r[0] == '/' {
        seq!['%', '2', 'F'] + escape_chars(r.drop_first())
    } else {
        escape_chars(r)
    }
}

/// Holds when `./` occurs nowhere in `s`.
pub open spec fn no_dot_slash(s: Seq<char>) -> bool {
    forall|i: int| 0 <= i && i + 1 < s.len() ==> !((#[trigger] s[i]) == '.' && s[i + 1] == '/')
}

/// The escape of a reference holds no `.` at all, and a non-empty escape
/// starts with `%` or with the reference's own first character.
proof fn lemma_escape_no_dot(r: Seq<char>)
    ensures
        forall|i: int| 0 <= i < escape_chars(r).len() ==> (#[trigger] escape_chars(r)[i]) != '.',
        r.len() > 0 ==> escape_chars(r).len() > 0,
        r.len() > 0 ==> (escape_chars(r)[0] == '%' || escape_chars(r)[0] == r[0]),
    decreases r.len(),
{
    if r.len() > 0 {
        let s = escape_chars(r);
        let head = esc_char(r[0]);
        let rest = escape_chars(r.drop_first());
        lemma_escape_no_dot(r.drop_first());
        assert(s == head + rest);
        assert forall|i: int| 0 <= i < s.len() implies (#[trigger] s[i]) != '.' by {
            if i < head.len() {
                assert(s[i] == head[i]);
            } else {
                assert(s[i] == rest[i - head.len()]);
            }
        }
    }
}

/// After sanitization a log reference never contains a literal `./` and
/// never begins with `/`.
pub proof fn lemma_sanitize_clean(r: Seq<char>)
    ensures
        no_dot_slash(sanitize_spec(r)),
        sanitize_spec(r).len() > 0 ==> sanitize_spec(r)[0] != '/',
{
    let s = sanitize_spec(r);
    lemma_escape_no_dot(r);
    if r.len() > 0 && r[0] == '/' {
        let rest = escape_chars(r.drop_first());
        lemma_escape_no_dot(r.drop_first());
        assert(s == seq!['%', '2', 'F'] + rest);
        assert forall|i: int| 0 <= i && i + 1 < s.len() implies !((#[trigger] s[i]) == '.' && s[i
            + 1] == '/') by {
            if i >= 3 {
                assert(s[i] == rest[i - 3]);
            }
        }
    } else {
        assert forall|i: int| 0 <= i && i + 1 < s.len() implies !((#[trigger] s[i]) == '.' && s[i
            + 1] == '/') by {
            assert(s[i] != '.');
        }
    }
}

/// Escaping is injective: two references with the same escape are the same
/// reference. The escape of each character determines that character, and
/// no escape is a prefix of another at the same position.
proof fn lemma_escape_injective(a: Seq<char>, b: Seq<char>)
    requires
        escape_chars(a) == escape_chars(b),
    ensures
        a == b,
    decreases a.len(),
{
    let ea = escape_chars(a);
    let eb = escape_chars(b);
    if a.len() == 0 && b.len() == 0 {
        assert(a =~= b);
    } else if a.len() == 0 {
        assert(eb == esc_char(b[0]) + escape_chars(b.drop_first()));
        assert(eb.len() >= esc_char(b[0]).len());
    } else if b.len() == 0 {
        assert(ea == esc_char(a[0]) + escape_chars(a.drop_first()));
        assert(ea.len() >= esc_char(a[0]).len());
    } else {
        let ha = esc_char(a[0]);
        let hb = esc_char(b[0]);
        let ta = escape_chars(a.drop_first());
        let tb = escape_chars(b.drop_first());
        assert(ea == ha + ta);
        assert(eb == hb + tb);
        assert(ea[0] == ha[0]);
        assert(eb[0] == hb[0]);
        if a[0] == '%' && b[0] == '.' {
            assert(ea[1] == '%' && eb[1] == '2');
        } else if a[0] == '.' && b[0] == '%' {
            assert(ea[1] == '2' && eb[1] == '%');
        } else if a[0] == '%' && b[0] != '%' && b[0] != '.' {
            assert(ea[0] == '%' && eb[0] == b[0]);
        } else if b[0] == '%' && a[0] != '%' && a[0] != '.' {
            assert(eb[0] == '%' && ea[0] == a[0]);
        } else if a[0] == '.' && b[0] != '%' && b[0] != '.' {
            assert(ea[0] == '%' && eb[0] == b[0]);
        } else if b[0] == '.' && a[0] != '%' && a[0] != '.' {
            assert(eb[0] == '%' && ea[0] == a[0]);
        } else {
            // the heads are in the same class, so they are equal and their
            // escapes have one length
            assert(a[0] == b[0]) by {
                if a[0] != '%' && a[0] != '.' {
                    assert(ea[0] == a[0] && eb[0] == b[0]);
                }
            }
            let k = ha.len() as int;
            assert(ta =~= ea.subrange(k, ea.len() as int));
            assert(tb =~= eb.subrange(k, eb.len() as int));
            assert(ta == tb);
            lemma_escape_injective(a.drop_first(), b.drop_first());
            assert(Seq::empty().push(a.first()).add(a.drop_first()) =~= a);
            assert(Seq::empty().push(b.first()).add(b.drop_first()) =~= b);
            assert(a == b);
        }
    }
}

/// Sanitization is collision-free: distinct log references are mapped to
/// distinct cache-path segments, so two different logs never share one
/// cache file.
pub proof fn lemma_sanitize_injective(a: Seq<char>, b: Seq<char>)
    requires
        sanitize_spec(a) == sanitize_spec(b),
    ensures
        a == b,
{
    let sa = sanitize_spec(a);
    let sb = sanitize_spec(b);
    let slash_a = a.len() > 0 && a[0] == '/';
    let slash_b = b.len() > 0 && b[0] == '/';
    if slash_a && slash_b {
        let ta = escape_chars(a.drop_first());
        let tb = escape_chars(b.drop_first());
        assert(sa == seq!['%', '2', 'F'] + ta);
        assert(sb == seq!['%', '2', 'F'] + tb);
        assert(ta =~= sa.subrange(3, sa.len() as int));
        assert(tb =~= sb.subrange(3, sb.len() as int));
        lemma_escape_injective(a.drop_first(), b.drop_first());
        assert(Seq::empty().push(a.first()).add(a.drop_first()) =~= a);
        assert(Seq::empty().push(b.first()).add(b.drop_first()) =~= b);
        assert(a == b);
    } else if slash_a {
        // an escape never starts with the marker `%2F`
        assert(sa == seq!['%', '2', 'F'] + escape_chars(a.drop_first()));
        assert(sa.len() >= 3);
        assert(sa[0] == '%' && sa[1] == '2' && sa[2] == 'F');
        assert(b.len() > 0) by {
            if b.len() == 0 {
                assert(sb =~= Seq::<char>::empty());
                assert(sb.len() == 0);
            }
        }
        assert(sb == esc_char(b[0]) + escape_chars(b.drop_first()));
        if b[0] == '%' {
            assert(sb[1] == '%');
        } else if b[0] == '.' {
            assert(sb[2] == 'E');
        } else {
            assert(sb[0] == b[0]);
        }
    } else if slash_b {
        assert(sb == seq!['%', '2', 'F'] + escape_chars(b.drop_first()));
        assert(sb.len() >= 3);
        assert(sb[0] == '%' && sb[1] == '2' && sb[2] == 'F');
        assert(a.len() > 0) by {
            if a.len() == 0 {
                assert(sa =~= Seq::<char>::empty());
                assert(sa.len() == 0);
            }
        }
        assert(sa == esc_char(a[0]) + escape_chars(a.drop_first()));
        if a[0] == '%' {
            assert(sa[1] == '%');
        } else if a[0] == '.' {
            assert(sa[2] == 'E');
        } else {
            assert(sa[0] == a[0]);
        }
    } else {
        lemma_escape_injective(a, b);
    }
}

/// Rewrites a log reference into a form that is safe as a cache-path
/// segment.
pub fn sanitize_log_ref(r: &str) -> (s: String)
    ensures
        s@ == sanitize_spec(r@),
{
    let n = r.unicode_len();
    let mut out = String::new();
    let mut i: usize = 0;
    proof {
        reveal_strlit("%2F");
    }
    if n > 0 && r.get_char(0) == '/' {
        out.append("%2F");
        i = 1;
        proof {
            assert(r@.subrange(1, n as int) =~= r@.drop_first());
            assert(out@ + escape_chars(r@.subrange(1, n as int)) =~= sanitize_spec(r@));
        }
    } else {
        proof {
            assert(r@.subrange(0, n as int) =~= r@);
            assert(out@ + escape_chars(r@.subrange(0, n as int)) =~= sanitize_spec(r@));
        }
    }
    while i < n
        invariant
            n == r@.len(),
            i <= n,
            out@ + escape_chars(r@.subrange(i as int, n as int)) =~= sanitize_spec(r@),
        decreases n - i,
    {
        let ghost rest = r@.subrange(i as int, n as int);
        let c = r.get_char(i);
        proof {
            reveal_strlit("%%");
            reveal_strlit("%2E");
            assert(rest[0] == r@[i as int]);
            assert(escape_chars(rest) == esc_char(rest[0]) + escape_chars(
                rest.drop_first(),
            ));
            assert(rest.drop_first() =~= r@.subrange(i + 1, n as int));
        }
        if c == '%' {
            out.append("%%");
        } else if c == '.' {
            out.append("%2E");
        } else {
            let piece = r.substring_char(i, i + 1);
            proof {
                assert(piece@ =~= seq![r@[i as int]]);
            }
            out.append(piece);
        }
        proof {
            assert(out@ + escape_chars(r@.subrange(i + 1, n as int)) =~= sanitize_spec(r@));
        }
        i = i + 1;
    }
    proof {
        assert(r@.subrange(n as int, n as int) =~= Seq::<char>::empty());
        assert(out@ =~= sanitize_spec(r@));
    }
    out
}

} // verus!
