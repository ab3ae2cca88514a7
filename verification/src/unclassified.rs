//! The bucket of unclassified runs: unit name to the ordered log references
//! of that unit's runs that matched no signature, kept in ascending
//! lexicographic order by unit name.

use vstd::prelude::*;

use crate::order::lex_lt;
use crate::order::lemma_lex_irreflexive;
use crate::order::lemma_lex_transitive;
use crate::order::lemma_lex_trichotomy;
use crate::order::str_cmp;

verus! {

/// One unit with the ordered log references of its unclassified runs.
pub struct UnclassifiedEntry {
    pub unit: String,
    pub log_refs: Vec<String>,
}

/// The unclassified bucket: a vector of entries strictly sorted by unit name.
pub struct Unclassified {
    entries: Vec<UnclassifiedEntry>,
}

impl View for Unclassified {
    type V = Seq<(Seq<char>, Seq<Seq<char>>)>;

    closed spec fn view(&self) -> Seq<(Seq<char>, Seq<Seq<char>>)> {
        Seq::new(
            self.entries@.len(),
            |i: int| (self.entries@[i].unit@, self.entries@[i].log_refs.deep_view()),
        )
    }
}

/// The log references recorded for `unit`, empty if `unit` is absent.
pub open spec fn refs_of(s: Seq<(Seq<char>, Seq<Seq<char>>)>, unit: Seq<char>) -> Seq<Seq<char>>
    decreases s.len(),
{
    if s.len() == 0 {
        Seq::empty()
    } else if s[0].0 == unit {
        s[0].1
    } else {
        refs_of(s.drop_first(), unit)
    }
}

/// Entries strictly sorted by unit name, no entry without a reference.
pub open spec fn unclassified_wf(s: Seq<(Seq<char>, Seq<Seq<char>>)>) -> bool {
    &&& forall|i: int, j: int| 0 <= i < j < s.len() ==> lex_lt(s[i].0, s[j].0)
    &&& forall|i: int| 0 <= i < s.len() ==> s[i].1.len() >= 1
}

/// The bucket after appending `r` to `unit`'s references: an existing unit
/// keeps its order and gains `r` at the end, a new unit enters at its sorted
/// position with `r` alone.
pub open spec fn append_ref(
    s: Seq<(Seq<char>, Seq<Seq<char>>)>,
    unit: Seq<char>,
    r: Seq<char>,
) -> Seq<(Seq<char>, Seq<Seq<char>>)>
    decreases s.len(),
{
    if s.len() == 0 {
        seq![(unit, seq![r])]
    } else if s[0].0 == unit {
        seq![(s[0].0, s[0].1.push(r))] + s.drop_first()
    } else if lex_lt(unit, s[0].0) {
        seq![(unit, seq![r])] + s
    } else {
        seq![s[0]] + append_ref(s.drop_first(), unit, r)
    }
}

/// A unit that no entry carries has no references.
pub proof fn lemma_refs_of_absent(s: Seq<(Seq<char>, Seq<Seq<char>>)>, unit: Seq<char>)
    requires
        forall|i: int| 0 <= i < s.len() ==> s[i].0 != unit,
    ensures
        refs_of(s, unit) == Seq::<Seq<char>>::empty(),
    decreases s.len(),
{
    if s.len() > 0 {
        let s1 = s.drop_first();
        assert(forall|i: int| 0 <= i < s1.len() ==> #[trigger] s1[i].0 == s[i + 1].0);
        lemma_refs_of_absent(s1, unit);
    }
}

/// Appending to one unit changes that unit's references alone.
pub proof fn lemma_append_refs(
    s: Seq<(Seq<char>, Seq<Seq<char>>)>,
    unit: Seq<char>,
    r: Seq<char>,
    m: Seq<char>,
)
    requires
        unclassified_wf(s),
    ensures
        refs_of(append_ref(s, unit, r), m) == if m == unit {
            refs_of(s, unit).push(r)
        } else {
            refs_of(s, m)
        },
    decreases s.len(),
{
    let b = append_ref(s, unit, r);
    if s.len() == 0 {
        assert(b == seq![(unit, seq![r])]);
        assert(b.drop_first() =~= Seq::<(Seq<char>, Seq<Seq<char>>)>::empty());
        if m == unit {
            assert(refs_of(b, m) == seq![r]);
            assert(refs_of(s, unit).push(r) =~= seq![r]);
        } else {
            assert(refs_of(Seq::<(Seq<char>, Seq<Seq<char>>)>::empty(), m)
                == Seq::<Seq<char>>::empty());
            assert(refs_of(b, m) == Seq::<Seq<char>>::empty());
        }
    } else if s[0].0 == unit {
        assert(b[0] == (s[0].0, s[0].1.push(r)));
        assert(b.drop_first() =~= s.drop_first());
    } else if lex_lt(unit, s[0].0) {
        assert(b[0] == (unit, seq![r]));
        assert(b.drop_first() =~= s);
        lemma_lex_irreflexive(s[0].0);
        assert forall|i: int| 0 <= i < s.len() implies s[i].0 != unit by {
            if i > 0 {
                lemma_lex_transitive(unit, s[0].0, s[i].0);
            }
            lemma_lex_irreflexive(s[i].0);
            if s[i].0 == unit {
                assert(lex_lt(s[i].0, s[i].0));
            }
        }
        lemma_refs_of_absent(s, unit);
        if m == unit {
            assert(refs_of(b, m) == seq![r]);
            assert(refs_of(s, unit).push(r) =~= seq![r]);
        }
    } else {
        assert(b[0] == s[0]);
        assert(b.drop_first() =~= append_ref(s.drop_first(), unit, r));
        let s1 = s.drop_first();
        assert(unclassified_wf(s1)) by {
            assert(forall|i: int, j: int|
                0 <= i < j < s1.len() ==> s1[i].0 == s[i + 1].0 && s1[j].0 == s[j + 1].0);
            assert(forall|i: int| 0 <= i < s1.len() ==> #[trigger] s1[i].1 == s[i + 1].1);
        }
        lemma_append_refs(s1, unit, r, m);
    }
}

/// Appending keeps the bucket sorted.
pub proof fn lemma_append_wf(s: Seq<(Seq<char>, Seq<Seq<char>>)>, unit: Seq<char>, r: Seq<char>)
    requires
        unclassified_wf(s),
    ensures
        unclassified_wf(append_ref(s, unit, r)),
    decreases s.len(),
{
    let b = append_ref(s, unit, r);
    if s.len() == 0 {
    } else if s[0].0 == unit {
        assert forall|i: int, j: int| 0 <= i < j < b.len() implies lex_lt(b[i].0, b[j].0) by {
            assert(b[j].0 == s[j].0);
            if i > 0 {
                assert(b[i].0 == s[i].0);
            }
        }
        assert forall|i: int| 0 <= i < b.len() implies b[i].1.len() >= 1 by {
            if i > 0 {
                assert(b[i].1 == s[i].1);
            }
        }
    } else if lex_lt(unit, s[0].0) {
        assert forall|i: int, j: int| 0 <= i < j < b.len() implies lex_lt(b[i].0, b[j].0) by {
            assert(b[j].0 == s[j - 1].0);
            if i > 0 {
                assert(b[i].0 == s[i - 1].0);
            } else {
                if j >= 2 {
                    lemma_lex_transitive(unit, s[0].0, s[j - 1].0);
                }
            }
        }
        assert(forall|i: int| 1 <= i < b.len() ==> b[i].1 == s[i - 1].1);
    } else {
        lemma_lex_trichotomy(unit, s[0].0);
        let s1 = s.drop_first();
        assert(unclassified_wf(s1)) by {
            assert(forall|i: int, j: int|
                0 <= i < j < s1.len() ==> lex_lt(#[trigger] s1[i].0, #[trigger] s1[j].0))
                by {
                assert(forall|i: int, j: int|
                    0 <= i < j < s1.len() ==> s1[i].0 == s[i + 1].0 && s1[j].0 == s[j + 1].0);
            }
            assert(forall|i: int| 0 <= i < s1.len() ==> #[trigger] s1[i].1 == s[i + 1].1);
        }
        lemma_append_wf(s1, unit, r);
        let b1 = append_ref(s1, unit, r);
        assert(b.drop_first() =~= b1);
        assert forall|i: int, j: int| 0 <= i < j < b.len() implies lex_lt(b[i].0, b[j].0) by {
            if i > 0 {
                assert(b[i].0 == b1[i - 1].0 && b[j].0 == b1[j - 1].0);
            } else {
                assert(b[j].0 == b1[j - 1].0);
                lemma_append_keys(s1, unit, r, j - 1);
                if exists|m: int| 0 <= m < s1.len() && b1[j - 1].0 == s1[m].0 {
                    let m = choose|m: int| 0 <= m < s1.len() && b1[j - 1].0 == s1[m].0;
                    assert(s1[m].0 == s[m + 1].0);
                    assert(lex_lt(s[0].0, s[m + 1].0));
                } else {
                    assert(b1[j - 1].0 == unit);
                }
            }
        }
        assert forall|i: int| 0 <= i < b.len() implies b[i].1.len() >= 1 by {
            if i > 0 {
                assert(b[i].1 == b1[i - 1].1);
            }
        }
    }
}

/// Every unit in an extended bucket is either the appended unit or one
/// already there.
proof fn lemma_append_keys(
    s: Seq<(Seq<char>, Seq<Seq<char>>)>,
    unit: Seq<char>,
    r: Seq<char>,
    j: int,
)
    requires
        0 <= j < append_ref(s, unit, r).len(),
    ensures
        append_ref(s, unit, r)[j].0 == unit || exists|m: int|
            0 <= m < s.len() && append_ref(s, unit, r)[j].0 == s[m].0,
    decreases s.len(),
{
    let b = append_ref(s, unit, r);
    if s.len() == 0 {
    } else if s[0].0 == unit {
    } else if lex_lt(unit, s[0].0) {
    } else {
        if j > 0 {
            assert(b.drop_first() =~= append_ref(s.drop_first(), unit, r));
            lemma_append_keys(s.drop_first(), unit, r, j - 1);
            if exists|m: int|
                0 <= m < s.drop_first().len() && append_ref(s.drop_first(), unit, r)[j - 1].0
                    == s.drop_first()[m].0 {
                let m = choose|m: int|
                    0 <= m < s.drop_first().len() && append_ref(s.drop_first(), unit, r)[j - 1].0
                        == s.drop_first()[m].0;
                assert(s.drop_first()[m].0 == s[m + 1].0);
                assert(b[j].0 == s[m + 1].0);
            }
        } else {
            assert(b[0].0 == s[0].0);
        }
    }
}

/// Where the scan stops determines the shape of the extended bucket.
proof fn lemma_append_at(s: Seq<(Seq<char>, Seq<Seq<char>>)>, unit: Seq<char>, r: Seq<char>, idx: int)
    requires
        unclassified_wf(s),
        0 <= idx <= s.len(),
        forall|j: int| 0 <= j < idx ==> lex_lt(s[j].0, unit),
    ensures
        idx < s.len() && s[idx].0 == unit ==> append_ref(s, unit, r) == s.update(
            idx,
            (unit, s[idx].1.push(r)),
        ),
        idx < s.len() && lex_lt(unit, s[idx].0) ==> append_ref(s, unit, r) == s.subrange(0, idx)
            + seq![(unit, seq![r])] + s.subrange(idx, s.len() as int),
        idx == s.len() ==> append_ref(s, unit, r) == s.push((unit, seq![r])),
    decreases idx,
{
    lemma_lex_irreflexive(unit);
    if idx == 0 {
        if s.len() == 0 {
            assert(append_ref(s, unit, r) =~= s.push((unit, seq![r])));
        } else if s[0].0 == unit {
            assert(append_ref(s, unit, r) =~= s.update(0, (unit, s[0].1.push(r))));
        } else if lex_lt(unit, s[0].0) {
            assert(append_ref(s, unit, r) =~= s.subrange(0, 0) + seq![(unit, seq![r])]
                + s.subrange(0, s.len() as int));
        }
    } else {
        let s1 = s.drop_first();
        assert(unclassified_wf(s1)) by {
            assert(forall|i: int, j: int|
                0 <= i < j < s1.len() ==> s1[i].0 == s[i + 1].0 && s1[j].0 == s[j + 1].0);
            assert(forall|i: int| 0 <= i < s1.len() ==> #[trigger] s1[i].1 == s[i + 1].1);
        }
        assert(forall|j: int| 0 <= j < idx - 1 ==> lex_lt(#[trigger] s1[j].0, unit)) by {
            assert(forall|j: int| 0 <= j < idx - 1 ==> s1[j].0 == s[j + 1].0);
        }
        lemma_append_at(s1, unit, r, idx - 1);
        lemma_lex_irreflexive(s[0].0);
        if lex_lt(unit, s[0].0) {
            lemma_lex_transitive(s[0].0, unit, s[0].0);
        }
        assert(s[0].0 != unit);
        assert(append_ref(s, unit, r) == seq![s[0]] + append_ref(s1, unit, r));
        if idx < s.len() && s[idx].0 == unit {
            assert(s1[idx - 1] == s[idx]);
            assert(s1[idx - 1].0 == unit);
            assert(append_ref(s, unit, r) =~= s.update(idx, (unit, s[idx].1.push(r))));
        } else if idx < s.len() && lex_lt(unit, s[idx].0) {
            assert(s1[idx - 1].0 == s[idx].0);
            assert(s1.subrange(0, idx - 1) =~= s.subrange(1, idx));
            assert(s1.subrange(idx - 1, s1.len() as int) =~= s.subrange(idx, s.len() as int));
            assert(append_ref(s1, unit, r) == s.subrange(1, idx) + seq![(unit, seq![r])]
                + s.subrange(idx, s.len() as int));
            assert(append_ref(s, unit, r) == seq![s[0]] + (s.subrange(1, idx) + seq![
                (unit, seq![r]),
            ] + s.subrange(idx, s.len() as int)));
            assert(append_ref(s, unit, r) =~= s.subrange(0, idx) + seq![(unit, seq![r])]
                + s.subrange(idx, s.len() as int));
        } else if idx == s.len() {
            assert(append_ref(s, unit, r) =~= s.push((unit, seq![r])));
        }
    }
}

impl Unclassified {
    /// An empty bucket.
    pub fn new() -> (res: Unclassified)
        ensures
            res@ =~= Seq::<(Seq<char>, Seq<Seq<char>>)>::empty(),
            unclassified_wf(res@),
    {
        Unclassified { entries: Vec::new() }
    }

    /// The number of units in the bucket.
    pub fn len(&self) -> (r: usize)
        ensures
            r == self@.len(),
    {
        self.entries.len()
    }

    pub fn unit_at(&self, i: usize) -> (r: &String)
        requires
            i < self@.len(),
        ensures
            r@ == self@[i as int].0,
    {
        &self.entries[i].unit
    }

    pub fn refs_at(&self, i: usize) -> (r: &Vec<String>)
        requires
            i < self@.len(),
        ensures
            r.deep_view() == self@[i as int].1,
    {
        &self.entries[i].log_refs
    }

    /// The log references recorded for `unit`, empty if absent.
    pub fn get_refs(&self, unit: &str) -> (r: Vec<String>)
        ensures
            r.deep_view() == refs_of(self@, unit@),
    {
        let n = self.entries.len();
        let mut i: usize = 0;
        proof {
            assert(self@.subrange(0, n as int) =~= self@);
        }
        while i < n
            invariant
                n == self@.len(),
                i <= n,
                refs_of(self@, unit@) == refs_of(self@.subrange(i as int, n as int), unit@),
            decreases n - i,
        {
            let ghost rest = self@.subrange(i as int, n as int);
            if str_cmp(self.entries[i].unit.as_str(), unit) == 0 {
                assert(rest[0].0 == unit@);
                assert(refs_of(rest, unit@) == rest[0].1);
                let r = self.entries[i].log_refs.clone();
                proof {
                    vstd::std_specs::vec::vec_clone_deep_view_proof(self.entries@[i as int].log_refs, r);
                }
                return r;
            }
            proof {
                assert(rest[0].0 != unit@);
                assert(refs_of(rest, unit@) == refs_of(rest.drop_first(), unit@));
                assert(rest.drop_first() =~= self@.subrange(i + 1, n as int));
            }
            i = i + 1;
        }
        proof {
            assert(self@.subrange(n as int, n as int)
                =~= Seq::<(Seq<char>, Seq<Seq<char>>)>::empty());
        }
        let r: Vec<String> = Vec::new();
        proof {
            assert(r.deep_view() =~= Seq::<Seq<char>>::empty());
        }
        r
    }

    /// Appends `r` to `unit`'s references, inserting the unit if it is new.
    pub fn push_ref(&mut self, unit: &str, r: &str)
        requires
            unclassified_wf(old(self)@),
        ensures
            final(self)@ == append_ref(old(self)@, unit@, r@),
            unclassified_wf(final(self)@),
    {
        let n = self.entries.len();
        let mut idx: usize = 0;
        while idx < n
            invariant
                unclassified_wf(old(self)@),
                n == self@.len(),
                idx <= n,
                *self == *old(self),
                forall|j: int| 0 <= j < idx ==> lex_lt(self@[j].0, unit@),
            decreases n - idx,
        {
            let c = str_cmp(self.entries[idx].unit.as_str(), unit);
            if c == 0 {
                // unit present: append to its reference list
                let ghost old_refs = self.entries@[idx as int].log_refs.deep_view();
                self.entries[idx].log_refs.push(r.to_owned());
                proof {
                    lemma_append_wf(old(self)@, unit@, r@);
                    lemma_append_at(old(self)@, unit@, r@, idx as int);
                    assert(self.entries@[idx as int].log_refs.deep_view() =~= old_refs.push(r@));
                    assert(self@ =~= old(self)@.update(
                        idx as int,
                        (unit@, old(self)@[idx as int].1.push(r@)),
                    ));
                }
                return ;
            }
            if c == 1 {
                // entry name above the new unit: insert here
                let mut refs: Vec<String> = Vec::new();
                refs.push(r.to_owned());
                proof {
                    assert(refs.deep_view() =~= seq![r@]);
                }
                self.entries.insert(idx, UnclassifiedEntry { unit: unit.to_owned(), log_refs: refs });
                proof {
                    lemma_append_wf(old(self)@, unit@, r@);
                    lemma_append_at(old(self)@, unit@, r@, idx as int);
                    assert(self@ =~= old(self)@.subrange(0, idx as int) + seq![(unit@, seq![r@])]
                        + old(self)@.subrange(idx as int, old(self)@.len() as int));
                }
                return ;
            }
            idx = idx + 1;
        }
        let mut refs: Vec<String> = Vec::new();
        refs.push(r.to_owned());
        proof {
            assert(refs.deep_view() =~= seq![r@]);
        }
        self.entries.push(UnclassifiedEntry { unit: unit.to_owned(), log_refs: refs });
        proof {
            lemma_append_wf(old(self)@, unit@, r@);
            lemma_append_at(old(self)@, unit@, r@, n as int);
            assert(self@ =~= old(self)@.push((unit@, seq![r@])));
        }
    }
}

/// The number of unclassified runs: the references of all units together.
pub open spec fn refs_total(s: Seq<(Seq<char>, Seq<Seq<char>>)>) -> nat
    decreases s.len(),
{
    if s.len() == 0 {
        0
    } else {
        s[0].1.len() + refs_total(s.drop_first())
    }
}

/// Appending one reference grows the bucket's total by exactly one,
/// wherever the unit sits.
pub proof fn lemma_append_total(s: Seq<(Seq<char>, Seq<Seq<char>>)>, unit: Seq<char>, r: Seq<char>)
    ensures
        refs_total(append_ref(s, unit, r)) == refs_total(s) + 1,
    decreases s.len(),
{
    let b = append_ref(s, unit, r);
    if s.len() == 0 {
        assert(b == seq![(unit, seq![r])]);
        assert(b.drop_first() =~= Seq::<(Seq<char>, Seq<Seq<char>>)>::empty());
        assert(refs_total(b.drop_first()) == 0);
        assert(refs_total(b) == b[0].1.len() + refs_total(b.drop_first()));
    } else if s[0].0 == unit {
        assert(b[0] == (s[0].0, s[0].1.push(r)));
        assert(b.drop_first() =~= s.drop_first());
        assert(refs_total(b) == b[0].1.len() + refs_total(b.drop_first()));
    } else if lex_lt(unit, s[0].0) {
        assert(b[0] == (unit, seq![r]));
        assert(b.drop_first() =~= s);
        assert(refs_total(b) == b[0].1.len() + refs_total(b.drop_first()));
    } else {
        assert(b[0] == s[0]);
        assert(b.drop_first() =~= append_ref(s.drop_first(), unit, r));
        lemma_append_total(s.drop_first(), unit, r);
        assert(refs_total(b) == b[0].1.len() + refs_total(b.drop_first()));
    }
}

} // verus!
