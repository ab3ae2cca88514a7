//! Byte-level text primitives: substring search and splitting a log into
//! physical lines.

use vstd::prelude::*;

verus! {

/// The needle `nd` occurs in `hay` as the contiguous subrange starting at `i`.
pub open spec fn is_match_at(hay: Seq<u8>, nd: Seq<u8>, i: int) -> bool {
    0 <= i && i + nd.len() <= hay.len() && hay.subrange(i, i + nd.len() as int) == nd
}

/// `nd` occurs somewhere in `hay` as a contiguous subrange.
pub open spec fn has_substring(hay: Seq<u8>, nd: Seq<u8>) -> bool {
    exists|i: int| is_match_at(hay, nd, i)
}

/// Naive substring search over byte slices.
pub fn contains_bytes(hay: &[u8], nd: &[u8]) -> (r: bool)
    ensures
        r == has_substring(hay@, nd@),
{
    let n = hay.len();
    let m = nd.len();
    if m > n {
        assert(forall|i: int| !is_match_at(hay@, nd@, i));
        return false;
    }
    let mut i: usize = 0;
    while i <= n - m
        invariant
            m <= n,
            n == hay@.len(),
            m == nd@.len(),
            i <= n - m + 1,
            forall|k: int| 0 <= k < i ==> !is_match_at(hay@, nd@, k),
        decreases n - m - i + 1,
    {
        let mut j: usize = 0;
        while j < m && hay[i + j] == nd[j]
            invariant
                m <= n,
                n == hay@.len(),
                m == nd@.len(),
                i + m <= n,
                j <= m,
                forall|k: int| 0 <= k < j ==> hay@[i + k] == nd@[k],
            decreases m - j,
        {
            j = j + 1;
        }
        if j == m {
            assert(hay@.subrange(i as int, i + m) =~= nd@);
            assert(is_match_at(hay@, nd@, i as int));
            return true;
        }
        assert(!is_match_at(hay@, nd@, i as int)) by {
            if is_match_at(hay@, nd@, i as int) {
                assert(hay@.subrange(i as int, i + m)[j as int] == nd@[j as int]);
            }
        }
        i = i + 1;
    }
    assert(forall|k: int| is_match_at(hay@, nd@, k) ==> 0 <= k <= n - m);
    false
}

/// Index of the first line-feed byte in `t`, or `t.len()` if there is none.
pub open spec fn first_nl(t: Seq<u8>) -> int
    decreases t.len(),
{
    if t.len() == 0 {
        0
    } else if t[0] == 10 {
        0
    } else {
        1 + first_nl(t.subrange(1, t.len() as int))
    }
}

pub proof fn lemma_first_nl(t: Seq<u8>)
    ensures
        0 <= first_nl(t) <= t.len(),
        first_nl(t) < t.len() ==> t[first_nl(t)] == 10,
        forall|j: int| 0 <= j < first_nl(t) ==> t[j] != 10,
    decreases t.len(),
{
    if t.len() > 0 && t[0] != 10 {
        let t1 = t.subrange(1, t.len() as int);
        lemma_first_nl(t1);
        assert forall|j: int| 0 <= j < first_nl(t) implies t[j] != 10 by {
            if j >= 1 {
                assert(t1[j - 1] != 10);
            }
        }
    }
}

/// `first_nl` is the unique position with no line feed before it that either
/// holds a line feed or is the end of the text.
pub proof fn lemma_first_nl_is(t: Seq<u8>, k: int)
    requires
        0 <= k <= t.len(),
        forall|j: int| 0 <= j < k ==> t[j] != 10,
        k < t.len() ==> t[k] == 10,
    ensures
        first_nl(t) == k,
    decreases t.len(),
{
    if t.len() > 0 && t[0] != 10 {
        let t1 = t.subrange(1, t.len() as int);
        lemma_first_nl_is(t1, k - 1);
    }
}

/// A line terminated by a line feed drops one carriage return directly
/// before it, as `str::lines` does.
pub open spec fn strip_cr(l: Seq<u8>) -> Seq<u8> {
    if l.len() > 0 && l.last() == 13 {
        l.drop_last()
    } else {
        l
    }
}

/// The physical lines of `t`: segments split at each line feed, with a
/// carriage return directly before a line feed dropped, the final segment
/// kept verbatim, and no empty final segment for text ending in a line feed.
pub open spec fn split_lines(t: Seq<u8>) -> Seq<Seq<u8>>
    decreases t.len(),
    via split_lines_decreases
{
    if t.len() == 0 {
        Seq::empty()
    } else {
        let k = first_nl(t);
        if k == t.len() {
            seq![t]
        } else {
            seq![strip_cr(t.subrange(0, k))] + split_lines(
                t.subrange(k + 1, t.len() as int),
            )
        }
    }
}

#[via_fn]
proof fn split_lines_decreases(t: Seq<u8>) {
    lemma_first_nl(t);
}

/// Splits a log into its physical lines.
pub fn split_into_lines(log: &[u8]) -> (r: Vec<Vec<u8>>)
    ensures
        r.deep_view() == split_lines(log@),
{
    let n = log.len();
    let mut out: Vec<Vec<u8>> = Vec::new();
    let mut pos: usize = 0;
    proof {
        assert(log@.subrange(0, n as int) =~= log@);
        assert(out.deep_view() + split_lines(log@) =~= split_lines(log@));
    }
    while pos < n
        invariant
            pos <= n,
            n == log@.len(),
            split_lines(log@) == out.deep_view() + split_lines(
                log@.subrange(pos as int, n as int),
            ),
        decreases n - pos,
    {
        let ghost prev_dv = out.deep_view();
        let ghost rest = log@.subrange(pos as int, n as int);
        let mut k: usize = pos;
        while k < n && log[k] != 10
            invariant
                pos <= k <= n,
                n == log@.len(),
                forall|j: int| pos <= j < k ==> log@[j] != 10,
            decreases n - k,
        {
            k = k + 1;
        }
        proof {
            assert(forall|j: int| 0 <= j < k - pos ==> rest[j] != 10);
            lemma_first_nl_is(rest, k - pos);
        }
        if k == n {
            let seg = vstd::slice::slice_to_vec(&log[pos..n]);
            proof {
                assert(seg.deep_view() =~= rest);
            }
            out.push(seg);
            proof {
                assert(split_lines(rest) =~= seq![rest]);
                assert(out.deep_view() =~= prev_dv + seq![rest]);
                assert(split_lines(log@) =~= out.deep_view() + split_lines(
                    log@.subrange(n as int, n as int),
                ));
            }
            pos = n;
        } else {
            let end: usize = if k > pos && log[k - 1] == 13 {
                k - 1
            } else {
                k
            };
            let seg = vstd::slice::slice_to_vec(&log[pos..end]);
            proof {
                let line = strip_cr(rest.subrange(0, k - pos));
                assert(log@.subrange(pos as int, end as int) =~= line);
                assert(seg.deep_view() =~= line);
            }
            out.push(seg);
            proof {
                let line = strip_cr(rest.subrange(0, k - pos));
                assert(split_lines(rest) == seq![line] + split_lines(
                    rest.subrange(k - pos + 1, rest.len() as int),
                ));
                assert(rest.subrange(k - pos + 1, rest.len() as int) =~= log@.subrange(
                    k + 1,
                    n as int,
                ));
                assert(out.deep_view() =~= prev_dv + seq![line]);
                assert(split_lines(log@) =~= out.deep_view() + split_lines(
                    log@.subrange(k + 1, n as int),
                ));
            }
            pos = k + 1;
        }
    }
    proof {
        assert(log@.subrange(pos as int, n as int) =~= Seq::<u8>::empty());
        assert(split_lines(log@) =~= out.deep_view());
    }
    out
}

} // verus!
