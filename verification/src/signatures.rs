//! The match algorithm of the signature set: literal AND-fragment signatures
//! applied per physical line, and the fixed error-code pattern applied to the
//! whole log.

use vstd::prelude::*;

use crate::config::Target;
use crate::text::has_substring;
use crate::text::contains_bytes;

verus! {

/// The UTF-8 bytes of a fragment, the form in which it is searched for in a
/// log line.
pub open spec fn utf8(s: Seq<char>) -> Seq<u8> {
    vstd::utf8::encode_utf8(s)
}

/// A literal signature matches a line when every one of its fragments is a
/// substring of that line, each independently and in any position.
pub open spec fn target_matches(frags: Seq<Seq<char>>, line: Seq<u8>) -> bool {
    forall|k: int| 0 <= k < frags.len() ==> has_substring(line, utf8(frags[k]))
}

/// A finding name matches a line when any of its alternative signatures does.
pub open spec fn entry_matches_line(alts: Seq<Seq<Seq<char>>>, line: Seq<u8>) -> bool {
    exists|j: int| 0 <= j < alts.len() && target_matches(alts[j], line)
}

/// How many lines a finding name matches: each matching line counts once,
/// however many of the name's alternatives match it.
pub open spec fn entry_line_count(alts: Seq<Seq<Seq<char>>>, lines: Seq<Seq<u8>>) -> nat
    decreases lines.len(),
{
    if lines.len() == 0 {
        0
    } else {
        entry_line_count(alts, lines.drop_last()) + if entry_matches_line(alts, lines.last()) {
            1nat
        } else {
            0nat
        }
    }
}

pub proof fn lemma_entry_line_count_le(alts: Seq<Seq<Seq<char>>>, lines: Seq<Seq<u8>>)
    ensures
        entry_line_count(alts, lines) <= lines.len(),
    decreases lines.len(),
{
    if lines.len() > 0 {
        lemma_entry_line_count_le(alts, lines.drop_last());
    }
}

/// Whether one literal signature matches the line.
pub fn target_matches_line(t: &Target, line: &[u8]) -> (r: bool)
    ensures
        r == target_matches(t@, line@),
{
    let m = t.all.len();
    let mut k: usize = 0;
    while k < m
        invariant
            m == t.all@.len(),
            k <= m,
            forall|q: int| 0 <= q < k ==> has_substring(line@, utf8(t@[q])),
        decreases m - k,
    {
        if !contains_bytes(line, t.all[k].as_str().as_bytes()) {
            assert(!has_substring(line@, utf8(t@[k as int])));
            return false;
        }
        k = k + 1;
    }
    true
}

/// Whether any of a finding name's alternatives matches the line.
pub fn alternatives_match_line(alts: &Vec<Target>, line: &[u8]) -> (r: bool)
    ensures
        r == entry_matches_line(alts.deep_view(), line@),
{
    let m = alts.len();
    let mut j: usize = 0;
    while j < m
        invariant
            m == alts@.len(),
            j <= m,
            forall|q: int| 0 <= q < j ==> !target_matches(alts.deep_view()[q], line@),
        decreases m - j,
    {
        if target_matches_line(&alts[j], line) {
            assert(target_matches(alts.deep_view()[j as int], line@));
            return true;
        }
        j = j + 1;
    }
    false
}

/// How many of the given lines a finding name matches.
pub fn count_matching_lines(alts: &Vec<Target>, lines: &Vec<Vec<u8>>) -> (c: usize)
    ensures
        c == entry_line_count(alts.deep_view(), lines.deep_view()),
        c <= lines.deep_view().len(),
{
    let n = lines.len();
    let mut c: usize = 0;
    let mut i: usize = 0;
    proof {
        assert(lines.deep_view().subrange(0, 0) =~= Seq::<Seq<u8>>::empty());
    }
    while i < n
        invariant
            n == lines@.len(),
            n == lines.deep_view().len(),
            i <= n,
            c <= i,
            c == entry_line_count(alts.deep_view(), lines.deep_view().subrange(0, i as int)),
        decreases n - i,
    {
        let ghost pre = lines.deep_view().subrange(0, i as int);
        proof {
            assert(lines.deep_view().subrange(0, i + 1).drop_last() =~= pre);
            assert(lines.deep_view().subrange(0, i + 1).last() == lines.deep_view()[i as int]);
            assert(lines.deep_view()[i as int] == lines@[i as int].deep_view());
            assert(lines@[i as int].deep_view() =~= lines@[i as int]@);
        }
        if alternatives_match_line(alts, lines[i].as_slice()) {
            c = c + 1;
        }
        i = i + 1;
    }
    proof {
        assert(lines.deep_view().subrange(0, n as int) =~= lines.deep_view());
    }
    c
}

/// The error codes that the fixed pattern extracts from a log text, in match
/// order: one code per non-overlapping match, each the text of the pattern's
/// single capture group.
pub uninterp spec fn error_codes_of(log: Seq<char>) -> Seq<Seq<char>>;

/// Relies on regex::RegexBuilder::build and regex::Regex::captures_iter with
/// the fixed multi-line pattern in the body: the matches of a fixed pattern,
/// and so the captured code of each, depend on the log text alone. The
/// pattern is valid, so building it cannot fail.
#[verifier::external_body]
pub(crate) fn scan_error_codes(log: &str) -> (r: Vec<String>)
    ensures
        r.deep_view() == error_codes_of(log@),
{
    let re = regex::RegexBuilder::new(r"^\[INFO\] \[stdout\] error\[(E\d+)\]:")
        .multi_line(true)
        .build()
        .unwrap();
    let mut out = Vec::new();
    for caps in re.captures_iter(log) {
        if let Some(code) = caps.get(1) {
            out.push(code.as_str().to_string());
        }
    }
    out
}

/// How often `name` occurs among the extracted codes.
pub open spec fn occurrences(codes: Seq<Seq<char>>, name: Seq<char>) -> nat
    decreases codes.len(),
{
    if codes.len() == 0 {
        0
    } else {
        occurrences(codes.drop_last(), name) + if codes.last() == name {
            1nat
        } else {
            0nat
        }
    }
}

} // verus!
