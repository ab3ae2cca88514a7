//! The aggregate findings map: finding name to occurrence count, kept in
//! ascending lexicographic order by name so that the rendered report is
//! deterministic.

use vstd::prelude::*;

use crate::order::lex_lt;
use crate::order::lemma_lex_irreflexive;
use crate::order::lemma_lex_transitive;
use crate::order::lemma_lex_trichotomy;
use crate::order::str_cmp;

verus! {

/// Addition on counters that stops at the largest representable value
/// instead of overflowing.
pub open spec fn sat_add(a: u64, b: u64) -> u64 {
    if a + b > u64::MAX {
        u64::MAX
    } else {
        (a + b) as u64
    }
}

pub fn sat_add64(a: u64, b: u64) -> (r: u64)
    ensures
        r == sat_add(a, b),
{
    if a <= u64::MAX - b {
        a + b
    } else {
        u64::MAX
    }
}

/// One named finding with its occurrence count.
pub struct FindingEntry {
    pub name: String,
    pub count: u64,
}

/// The findings map: a vector of entries strictly sorted by name.
pub struct Findings {
    entries: Vec<FindingEntry>,
}

impl View for Findings {
    type V = Seq<(Seq<char>, u64)>;

    closed spec fn view(&self) -> Seq<(Seq<char>, u64)> {
        Seq::new(self.entries@.len(), |i: int| (self.entries@[i].name@, self.entries@[i].count))
    }
}

/// The count recorded for `name`, or zero if `name` is absent.
pub open spec fn count_of(s: Seq<(Seq<char>, u64)>, name: Seq<char>) -> u64
    decreases s.len(),
{
    if s.len() == 0 {
        0
    } else if s[0].0 == name {
        s[0].1
    } else {
        count_of(s.drop_first(), name)
    }
}

/// Entries strictly sorted by name, every count at least one.
pub open spec fn findings_wf(s: Seq<(Seq<char>, u64)>) -> bool {
    &&& forall|i: int, j: int| 0 <= i < j < s.len() ==> lex_lt(s[i].0, s[j].0)
    &&& forall|i: int| 0 <= i < s.len() ==> s[i].1 >= 1
}

/// The findings map after raising `name` by `k` (saturating): an existing
/// entry has its count raised, a new name enters at its sorted position.
pub open spec fn bump(s: Seq<(Seq<char>, u64)>, name: Seq<char>, k: u64) -> Seq<(Seq<char>, u64)>
    decreases s.len(),
{
    if s.len() == 0 {
        seq![(name, k)]
    } else if s[0].0 == name {
        seq![(s[0].0, sat_add(s[0].1, k))] + s.drop_first()
    } else if lex_lt(name, s[0].0) {
        seq![(name, k)] + s
    } else {
        seq![s[0]] + bump(s.drop_first(), name, k)
    }
}

/// A name that no entry carries has count zero.
pub proof fn lemma_count_of_absent(s: Seq<(Seq<char>, u64)>, name: Seq<char>)
    requires
        forall|i: int| 0 <= i < s.len() ==> s[i].0 != name,
    ensures
        count_of(s, name) == 0,
    decreases s.len(),
{
    if s.len() > 0 {
        let s1 = s.drop_first();
        assert(forall|i: int| 0 <= i < s1.len() ==> #[trigger] s1[i].0 == s[i + 1].0);
        lemma_count_of_absent(s1, name);
    }
}

/// Raising one name changes that name's count alone.
pub proof fn lemma_bump_count(s: Seq<(Seq<char>, u64)>, name: Seq<char>, k: u64, m: Seq<char>)
    requires
        findings_wf(s),
    ensures
        count_of(bump(s, name, k), m) == if m == name {
            sat_add(count_of(s, name), k)
        } else {
            count_of(s, m)
        },
    decreases s.len(),
{
    let b = bump(s, name, k);
    let goal: u64 = if m == name { sat_add(count_of(s, name), k) } else { count_of(s, m) };
    if s.len() == 0 {
        assert(b == seq![(name, k)]);
        assert(b.drop_first() =~= Seq::<(Seq<char>, u64)>::empty());
        if m == name {
            assert(count_of(b, m) == k);
        } else {
            assert(count_of(Seq::<(Seq<char>, u64)>::empty(), m) == 0);
            assert(count_of(b, m) == 0);
        }
        assert(count_of(b, m) == goal);
    } else if s[0].0 == name {
        assert(b[0] == (s[0].0, sat_add(s[0].1, k)));
        assert(b.drop_first() =~= s.drop_first());
        assert(count_of(b, m) == goal);
    } else if lex_lt(name, s[0].0) {
        assert(b[0] == (name, k));
        assert(b.drop_first() =~= s);
        lemma_lex_irreflexive(s[0].0);
        assert forall|i: int| 0 <= i < s.len() implies s[i].0 != name by {
            if i > 0 {
                lemma_lex_transitive(name, s[0].0, s[i].0);
            }
            lemma_lex_irreflexive(s[i].0);
            if s[i].0 == name {
                assert(lex_lt(s[i].0, s[i].0));
            }
        }
        lemma_count_of_absent(s, name);
        assert(count_of(b, m) == goal);
    } else {
        assert(b[0] == s[0]);
        assert(b.drop_first() =~= bump(s.drop_first(), name, k));
        let s1 = s.drop_first();
        assert(findings_wf(s1)) by {
            assert(forall|i: int, j: int|
                0 <= i < j < s1.len() ==> s1[i].0 == s[i + 1].0 && s1[j].0 == s[j + 1].0);
            assert(forall|i: int| 0 <= i < s1.len() ==> #[trigger] s1[i].1 == s[i + 1].1);
        }
        lemma_bump_count(s1, name, k, m);
        assert(count_of(b, m) == goal);
    }
}

/// Raising a name keeps the map sorted.
pub proof fn lemma_bump_wf(s: Seq<(Seq<char>, u64)>, name: Seq<char>, k: u64)
    requires
        findings_wf(s),
        k >= 1,
    ensures
        findings_wf(bump(s, name, k)),
    decreases s.len(),
{
    let b = bump(s, name, k);
    if s.len() == 0 {
    } else if s[0].0 == name {
        assert forall|i: int, j: int| 0 <= i < j < b.len() implies lex_lt(b[i].0, b[j].0) by {
            assert(b[j].0 == s[j].0);
            if i > 0 {
                assert(b[i].0 == s[i].0);
            }
        }
        assert forall|i: int| 0 <= i < b.len() implies b[i].1 >= 1 by {
            if i > 0 {
                assert(b[i].1 == s[i].1);
            }
        }
    } else if lex_lt(name, s[0].0) {
        assert forall|i: int, j: int| 0 <= i < j < b.len() implies lex_lt(b[i].0, b[j].0) by {
            assert(b[j].0 == s[j - 1].0);
            if i > 0 {
                assert(b[i].0 == s[i - 1].0);
            } else {
                if j >= 2 {
                    lemma_lex_transitive(name, s[0].0, s[j - 1].0);
                }
            }
        }
        assert(forall|i: int| 1 <= i < b.len() ==> b[i].1 == s[i - 1].1);
    } else {
        lemma_lex_trichotomy(name, s[0].0);
        let s1 = s.drop_first();
        assert(findings_wf(s1)) by {
            assert(forall|i: int, j: int|
                0 <= i < j < s1.len() ==> lex_lt(#[trigger] s1[i].0, #[trigger] s1[j].0))
                by {
                assert(forall|i: int, j: int|
                    0 <= i < j < s1.len() ==> s1[i].0 == s[i + 1].0 && s1[j].0 == s[j + 1].0);
            }
            assert(forall|i: int| 0 <= i < s1.len() ==> #[trigger] s1[i].1 == s[i + 1].1);
        }
        lemma_bump_wf(s1, name, k);
        let b1 = bump(s1, name, k);
        assert(b.drop_first() =~= b1);
        // every name in `b1` is above `s[0].0`
        assert forall|i: int, j: int| 0 <= i < j < b.len() implies lex_lt(b[i].0, b[j].0) by {
            if i > 0 {
                assert(b[i].0 == b1[i - 1].0 && b[j].0 == b1[j - 1].0);
            } else {
                assert(b[j].0 == b1[j - 1].0);
                lemma_bump_keys(s1, name, k, j - 1);
                if exists|m: int| 0 <= m < s1.len() && b1[j - 1].0 == s1[m].0 {
                    let m = choose|m: int| 0 <= m < s1.len() && b1[j - 1].0 == s1[m].0;
                    assert(s1[m].0 == s[m + 1].0);
                    assert(lex_lt(s[0].0, s[m + 1].0));
                } else {
                    assert(b1[j - 1].0 == name);
                }
            }
        }
        assert forall|i: int| 0 <= i < b.len() implies b[i].1 >= 1 by {
            if i > 0 {
                assert(b[i].1 == b1[i - 1].1);
            }
        }
    }
}

/// Every name in a bumped map is either the bumped name or one already there.
proof fn lemma_bump_keys(s: Seq<(Seq<char>, u64)>, name: Seq<char>, k: u64, j: int)
    requires
        0 <= j < bump(s, name, k).len(),
    ensures
        bump(s, name, k)[j].0 == name || exists|m: int|
            0 <= m < s.len() && bump(s, name, k)[j].0 == s[m].0,
    decreases s.len(),
{
    let b = bump(s, name, k);
    if s.len() == 0 {
    } else if s[0].0 == name {
    } else if lex_lt(name, s[0].0) {
    } else {
        if j > 0 {
            assert(b.drop_first() =~= bump(s.drop_first(), name, k));
            lemma_bump_keys(s.drop_first(), name, k, j - 1);
            if exists|m: int|
                0 <= m < s.drop_first().len() && bump(s.drop_first(), name, k)[j - 1].0
                    == s.drop_first()[m].0 {
                let m = choose|m: int|
                    0 <= m < s.drop_first().len() && bump(s.drop_first(), name, k)[j - 1].0
                        == s.drop_first()[m].0;
                assert(s.drop_first()[m].0 == s[m + 1].0);
                assert(b[j].0 == s[m + 1].0);
            }
        } else {
            assert(b[0].0 == s[0].0);
        }
    }
}

/// A sorted map's tail is sorted.
pub proof fn lemma_findings_wf_tail(s: Seq<(Seq<char>, u64)>)
    requires
        findings_wf(s),
        s.len() > 0,
    ensures
        findings_wf(s.drop_first()),
{
    let s1 = s.drop_first();
    assert(forall|i: int, j: int|
        0 <= i < j < s1.len() ==> s1[i].0 == s[i + 1].0 && s1[j].0 == s[j + 1].0);
    assert(forall|i: int| 0 <= i < s1.len() ==> #[trigger] s1[i].1 == s[i + 1].1);
}

/// Two sorted findings maps that record the same count for every name are
/// the same map: the counts determine the findings completely.
pub proof fn lemma_counts_determine(s1: Seq<(Seq<char>, u64)>, s2: Seq<(Seq<char>, u64)>)
    requires
        findings_wf(s1),
        findings_wf(s2),
        forall|m: Seq<char>| #[trigger] count_of(s1, m) == count_of(s2, m),
    ensures
        s1 == s2,
    decreases s1.len(),
{
    if s1.len() == 0 && s2.len() == 0 {
        assert(s1 =~= s2);
    } else if s2.len() == 0 {
        assert(count_of(s1, s1[0].0) == s1[0].1);
        assert(count_of(s2, s1[0].0) == 0);
    } else if s1.len() == 0 {
        assert(count_of(s2, s2[0].0) == s2[0].1);
        assert(count_of(s1, s2[0].0) == 0);
    } else {
        let k1 = s1[0].0;
        let k2 = s2[0].0;
        lemma_lex_trichotomy(k1, k2);
        if lex_lt(k1, k2) {
            assert forall|i: int| 0 <= i < s2.len() implies s2[i].0 != k1 by {
                if i > 0 {
                    lemma_lex_transitive(k1, k2, s2[i].0);
                } else {
                }
                lemma_lex_irreflexive(s2[i].0);
                if s2[i].0 == k1 {
                    assert(lex_lt(s2[i].0, s2[i].0));
                }
            }
            lemma_count_of_absent(s2, k1);
            assert(count_of(s1, k1) == s1[0].1);
        } else if lex_lt(k2, k1) {
            assert forall|i: int| 0 <= i < s1.len() implies s1[i].0 != k2 by {
                if i > 0 {
                    lemma_lex_transitive(k2, k1, s1[i].0);
                } else {
                }
                lemma_lex_irreflexive(s1[i].0);
                if s1[i].0 == k2 {
                    assert(lex_lt(s1[i].0, s1[i].0));
                }
            }
            lemma_count_of_absent(s1, k2);
            assert(count_of(s2, k2) == s2[0].1);
        } else {
            assert(count_of(s1, k1) == s1[0].1);
            assert(count_of(s2, k1) == s2[0].1);
            let t1 = s1.drop_first();
            let t2 = s2.drop_first();
            lemma_findings_wf_tail(s1);
            lemma_findings_wf_tail(s2);
            assert forall|m: Seq<char>| #[trigger] count_of(t1, m) == count_of(t2, m) by {
                if m == k1 {
                    assert forall|i: int| 0 <= i < t1.len() implies t1[i].0 != m by {
                        assert(t1[i].0 == s1[i + 1].0);
                        assert(lex_lt(k1, s1[i + 1].0));
                        lemma_lex_irreflexive(s1[i + 1].0);
                        if s1[i + 1].0 == m {
                            assert(lex_lt(s1[i + 1].0, s1[i + 1].0));
                        }
                    }
                    assert forall|i: int| 0 <= i < t2.len() implies t2[i].0 != m by {
                        assert(t2[i].0 == s2[i + 1].0);
                        assert(lex_lt(k1, s2[i + 1].0));
                        lemma_lex_irreflexive(s2[i + 1].0);
                        if s2[i + 1].0 == m {
                            assert(lex_lt(s2[i + 1].0, s2[i + 1].0));
                        }
                    }
                    lemma_count_of_absent(t1, m);
                    lemma_count_of_absent(t2, m);
                } else {
                    assert(count_of(s1, m) == count_of(t1, m));
                    assert(count_of(s2, m) == count_of(t2, m));
                    assert(count_of(s1, m) == count_of(s2, m));
                }
            }
            lemma_counts_determine(t1, t2);
            assert(s1.first() == s2.first());
            assert(Seq::empty().push(s1.first()).add(s1.drop_first()) =~= s1);
            assert(Seq::empty().push(s2.first()).add(s2.drop_first()) =~= s2);
            assert(s1 == s2);
        }
    }
}

impl Findings {
    /// An empty findings map.
    pub fn new() -> (r: Findings)
        ensures
            r@ =~= Seq::<(Seq<char>, u64)>::empty(),
            findings_wf(r@),
    {
        Findings { entries: Vec::new() }
    }

    pub fn len(&self) -> (r: usize)
        ensures
            r == self@.len(),
    {
        self.entries.len()
    }

    pub fn name_at(&self, i: usize) -> (r: &String)
        requires
            i < self@.len(),
        ensures
            r@ == self@[i as int].0,
    {
        &self.entries[i].name
    }

    pub fn count_at(&self, i: usize) -> (r: u64)
        requires
            i < self@.len(),
        ensures
            r == self@[i as int].1,
    {
        self.entries[i].count
    }

    /// The count recorded for `name`, or zero if absent.
    pub fn get(&self, name: &str) -> (r: u64)
        ensures
            r == count_of(self@, name@),
    {
        let n = self.entries.len();
        let mut i: usize = 0;
        proof {
            assert(self@.subrange(0, n as int) =~= self@);
        }
        while i < n
            invariant
                n == self@.len(),
                i <= n,
                count_of(self@, name@) == count_of(self@.subrange(i as int, n as int), name@),
            decreases n - i,
        {
            let ghost rest = self@.subrange(i as int, n as int);
            if str_cmp(self.entries[i].name.as_str(), name) == 0 {
                assert(rest[0].0 == name@);
                assert(count_of(rest, name@) == rest[0].1);
                return self.entries[i].count;
            }
            proof {
                assert(rest[0].0 != name@);
                assert(count_of(rest, name@) == count_of(rest.drop_first(), name@));
                assert(rest.drop_first() =~= self@.subrange(i + 1, n as int));
            }
            i = i + 1;
        }
        proof {
            assert(self@.subrange(n as int, n as int) =~= Seq::<(Seq<char>, u64)>::empty());
        }
        0
    }

    /// Raises `name` by `k`, saturating, inserting the name if it is new.
    pub fn add(&mut self, name: &str, k: u64)
        requires
            k >= 1,
            findings_wf(old(self)@),
        ensures
            final(self)@ == bump(old(self)@, name@, k),
            findings_wf(final(self)@),
    {
        let n = self.entries.len();
        let mut idx: usize = 0;
        while idx < n
            invariant
                k >= 1,
                findings_wf(old(self)@),
                n == self@.len(),
                idx <= n,
                *self == *old(self),
                forall|j: int| 0 <= j < idx ==> lex_lt(self@[j].0, name@),
            decreases n - idx,
        {
            let c = str_cmp(self.entries[idx].name.as_str(), name);
            if c == 0 {
                // name present: raise its count in place
                let newc = sat_add64(self.entries[idx].count, k);
                self.entries[idx].count = newc;
                proof {
                    lemma_bump_wf(old(self)@, name@, k);
                    lemma_bump_at(old(self)@, name@, k, idx as int);
                    assert(self@ =~= old(self)@.update(
                        idx as int,
                        (name@, sat_add(old(self)@[idx as int].1, k)),
                    ));
                }
                return ;
            }
            if c == 1 {
                // entry name above the new name: insert here
                self.entries.insert(idx, FindingEntry { name: name.to_owned(), count: k });
                proof {
                    lemma_bump_wf(old(self)@, name@, k);
                    lemma_bump_at(old(self)@, name@, k, idx as int);
                    assert(self@ =~= old(self)@.subrange(0, idx as int) + seq![(name@, k)]
                        + old(self)@.subrange(idx as int, old(self)@.len() as int));
                }
                return ;
            }
            idx = idx + 1;
        }
        self.entries.push(FindingEntry { name: name.to_owned(), count: k });
        proof {
            lemma_bump_wf(old(self)@, name@, k);
            lemma_bump_at(old(self)@, name@, k, n as int);
            assert(self@ =~= old(self)@.push((name@, k)));
        }
    }

    /// The saturating total of all counts, as printed in the report.
    pub fn total(&self) -> (r: u64)
        ensures
            r == counts_total(self@),
    {
        let n = self.entries.len();
        let mut acc: u64 = 0;
        let mut i: usize = 0;
        proof {
            assert(self@.subrange(0, 0) =~= Seq::<(Seq<char>, u64)>::empty());
        }
        while i < n
            invariant
                n == self@.len(),
                i <= n,
                acc == counts_total(self@.subrange(0, i as int)),
            decreases n - i,
        {
            acc = sat_add64(acc, self.entries[i].count);
            proof {
                assert(self@.subrange(0, i + 1).drop_last() =~= self@.subrange(0, i as int));
                assert(self@.subrange(0, i + 1).last() == self@[i as int]);
            }
            i = i + 1;
        }
        proof {
            assert(self@.subrange(0, n as int) =~= self@);
        }
        acc
    }
}

/// The saturating sum of all counts in the map.
pub open spec fn counts_total(s: Seq<(Seq<char>, u64)>) -> u64
    decreases s.len(),
{
    if s.len() == 0 {
        0
    } else {
        sat_add(counts_total(s.drop_last()), s.last().1)
    }
}

/// Where the scan stops determines the shape of the bumped map.
proof fn lemma_bump_at(s: Seq<(Seq<char>, u64)>, name: Seq<char>, k: u64, idx: int)
    requires
        findings_wf(s),
        0 <= idx <= s.len(),
        forall|j: int| 0 <= j < idx ==> lex_lt(s[j].0, name),
    ensures
        idx < s.len() && s[idx].0 == name ==> bump(s, name, k) == s.update(
            idx,
            (name, sat_add(s[idx].1, k)),
        ),
        idx < s.len() && lex_lt(name, s[idx].0) ==> bump(s, name, k) == s.subrange(0, idx)
            + seq![(name, k)] + s.subrange(idx, s.len() as int),
        idx == s.len() ==> bump(s, name, k) == s.push((name, k)),
    decreases idx,
{
    lemma_lex_irreflexive(name);
    if idx == 0 {
        if s.len() == 0 {
            assert(bump(s, name, k) =~= s.push((name, k)));
        } else if s[0].0 == name {
            assert(bump(s, name, k) =~= s.update(0, (name, sat_add(s[0].1, k))));
        } else if lex_lt(name, s[0].0) {
            assert(bump(s, name, k) =~= s.subrange(0, 0) + seq![(name, k)] + s.subrange(
                0,
                s.len() as int,
            ));
        }
    } else {
        let s1 = s.drop_first();
        assert(findings_wf(s1)) by {
            assert(forall|i: int, j: int|
                0 <= i < j < s1.len() ==> s1[i].0 == s[i + 1].0 && s1[j].0 == s[j + 1].0);
            assert(forall|i: int| 0 <= i < s1.len() ==> #[trigger] s1[i].1 == s[i + 1].1);
        }
        assert(forall|j: int| 0 <= j < idx - 1 ==> lex_lt(#[trigger] s1[j].0, name)) by {
            assert(forall|j: int| 0 <= j < idx - 1 ==> s1[j].0 == s[j + 1].0);
        }
        lemma_bump_at(s1, name, k, idx - 1);
        // the head is below `name`, so `bump` keeps it and recurses
        lemma_lex_irreflexive(s[0].0);
        if lex_lt(name, s[0].0) {
            lemma_lex_transitive(s[0].0, name, s[0].0);
        }
        assert(s[0].0 != name);
        assert(bump(s, name, k) == seq![s[0]] + bump(s1, name, k));
        if idx < s.len() && s[idx].0 == name {
            assert(s1[idx - 1] == s[idx]);
            assert(s1[idx - 1].0 == name);
            assert(bump(s, name, k) =~= s.update(idx, (name, sat_add(s[idx].1, k))));
        } else if idx < s.len() && lex_lt(name, s[idx].0) {
            assert(s1[idx - 1].0 == s[idx].0);
            assert(s1.subrange(0, idx - 1) =~= s.subrange(1, idx));
            assert(s1.subrange(idx - 1, s1.len() as int) =~= s.subrange(idx, s.len() as int));
            assert(bump(s1, name, k) == s.subrange(1, idx) + seq![(name, k)] + s.subrange(
                idx,
                s.len() as int,
            ));
            assert(bump(s, name, k) == seq![s[0]] + (s.subrange(1, idx) + seq![(name, k)]
                + s.subrange(idx, s.len() as int)));
            assert(bump(s, name, k) =~= s.subrange(0, idx) + seq![(name, k)] + s.subrange(
                idx,
                s.len() as int,
            ));
        } else if idx == s.len() {
            assert(bump(s, name, k) =~= s.push((name, k)));
        }
    }
}

} // verus!
