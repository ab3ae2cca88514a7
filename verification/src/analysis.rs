//! The classifier core: the accumulator that the fetch loop feeds one
//! completed log at a time, and the laws that hold of any sequence of
//! completions.
//!
//! The fetch loop itself performs I/O and lives outside the library; it owns
//! an `Analysis`, calls `record_log` for every log it obtained and
//! `record_fetch_failure` for every log it could not obtain, in whatever
//! order the fetches complete for runs of different units (per unit, manifest
//! order must be kept to preserve the order of the unclassified references).

use vstd::prelude::*;

use crate::config::Config;
use crate::findings::Findings;
use crate::findings::bump;
use crate::findings::count_of;
use crate::findings::findings_wf;
use crate::findings::lemma_bump_count;
use crate::findings::lemma_bump_wf;
use crate::findings::lemma_counts_determine;
use crate::findings::sat_add;
use crate::signatures::entry_line_count;
use crate::signatures::occurrences;
use crate::signatures::error_codes_of;
use crate::signatures::scan_error_codes;
use crate::signatures::count_matching_lines;
use crate::signatures::utf8;
use crate::text::split_lines;
use crate::text::split_into_lines;
use crate::unclassified::Unclassified;
use crate::unclassified::append_ref;
use crate::unclassified::refs_total;
use crate::unclassified::lemma_append_total;
use crate::unclassified::unclassified_wf;

verus! {

/// A counter clipped to the largest representable value.
pub open spec fn clamp64(n: nat) -> u64 {
    if n > u64::MAX {
        u64::MAX
    } else {
        n as u64
    }
}

/// The findings after counting every literal signature of the table against
/// the lines of one log: each name whose alternatives match at least one
/// line is raised by its number of matching lines.
pub open spec fn apply_literals(
    f: Seq<(Seq<char>, u64)>,
    table: Seq<(Seq<char>, Seq<Seq<Seq<char>>>)>,
    lines: Seq<Seq<u8>>,
) -> Seq<(Seq<char>, u64)>
    decreases table.len(),
{
    if table.len() == 0 {
        f
    } else {
        let f1 = apply_literals(f, table.drop_last(), lines);
        let c = entry_line_count(table.last().1, lines);
        if c > 0 {
            bump(f1, table.last().0, clamp64(c))
        } else {
            f1
        }
    }
}

/// The findings after the extracted error codes of one log: each code, in
/// order, raises the finding of its own name by one.
pub open spec fn apply_codes(
    f: Seq<(Seq<char>, u64)>,
    codes: Seq<Seq<char>>,
) -> Seq<(Seq<char>, u64)>
    decreases codes.len(),
{
    if codes.len() == 0 {
        f
    } else {
        bump(apply_codes(f, codes.drop_last()), codes.last(), 1)
    }
}

/// Whether any literal signature of the table matches any line.
pub open spec fn any_literal_match(
    table: Seq<(Seq<char>, Seq<Seq<Seq<char>>>)>,
    lines: Seq<Seq<u8>>,
) -> bool {
    exists|j: int| 0 <= j < table.len() && entry_line_count(table[j].1, lines) > 0
}

/// Whether one log matched at all: by a literal signature or by the
/// error-code pattern. A log for which this is false is unclassified.
pub open spec fn log_matched(
    table: Seq<(Seq<char>, Seq<Seq<Seq<char>>>)>,
    lines: Seq<Seq<u8>>,
    codes: Seq<Seq<char>>,
) -> bool {
    any_literal_match(table, lines) || codes.len() > 0
}

/// The classifier state after folding in one fetched log.
pub open spec fn apply_log(
    st: (Seq<(Seq<char>, u64)>, Seq<(Seq<char>, Seq<Seq<char>>)>),
    table: Seq<(Seq<char>, Seq<Seq<Seq<char>>>)>,
    unit: Seq<char>,
    log_ref: Seq<char>,
    log: Seq<char>,
) -> (Seq<(Seq<char>, u64)>, Seq<(Seq<char>, Seq<Seq<char>>)>) {
    let lines = split_lines(utf8(log));
    let codes = error_codes_of(log);
    (
        apply_codes(apply_literals(st.0, table, lines), codes),
        if log_matched(table, lines, codes) {
            st.1
        } else {
            append_ref(st.1, unit, log_ref)
        },
    )
}

/// The lines that `name`'s literal signatures match, summed over every
/// table entry carrying that name.
pub open spec fn literal_total(
    table: Seq<(Seq<char>, Seq<Seq<Seq<char>>>)>,
    lines: Seq<Seq<u8>>,
    name: Seq<char>,
) -> nat
    decreases table.len(),
{
    if table.len() == 0 {
        0
    } else {
        literal_total(table.drop_last(), lines, name) + if table.last().0 == name {
            entry_line_count(table.last().1, lines)
        } else {
            0nat
        }
    }
}

/// Saturating addition applied twice is the saturating addition of the sum.
proof fn lemma_sat_add_chain(c: u64, a: nat, b: nat)
    ensures
        sat_add(sat_add(c, clamp64(a)), clamp64(b)) == sat_add(c, clamp64(a + b)),
{
}

/// Counting the literal signatures keeps the findings map sorted.
pub proof fn lemma_apply_literals_wf(
    f: Seq<(Seq<char>, u64)>,
    table: Seq<(Seq<char>, Seq<Seq<Seq<char>>>)>,
    lines: Seq<Seq<u8>>,
)
    requires
        findings_wf(f),
    ensures
        findings_wf(apply_literals(f, table, lines)),
    decreases table.len(),
{
    if table.len() > 0 {
        lemma_apply_literals_wf(f, table.drop_last(), lines);
        let c = entry_line_count(table.last().1, lines);
        if c > 0 {
            lemma_bump_wf(apply_literals(f, table.drop_last(), lines), table.last().0, clamp64(c));
        }
    }
}

/// The literal pass raises each name by exactly the number of lines its
/// signatures match, clipped at the counter's ceiling.
pub proof fn lemma_apply_literals_count(
    f: Seq<(Seq<char>, u64)>,
    table: Seq<(Seq<char>, Seq<Seq<Seq<char>>>)>,
    lines: Seq<Seq<u8>>,
    m: Seq<char>,
)
    requires
        findings_wf(f),
    ensures
        count_of(apply_literals(f, table, lines), m) == sat_add(
            count_of(f, m),
            clamp64(literal_total(table, lines, m)),
        ),
    decreases table.len(),
{
    if table.len() == 0 {
        assert(clamp64(0) == 0);
    } else {
        let t1 = table.drop_last();
        lemma_apply_literals_count(f, t1, lines, m);
        lemma_apply_literals_wf(f, t1, lines);
        let f1 = apply_literals(f, t1, lines);
        let c = entry_line_count(table.last().1, lines);
        if c > 0 {
            lemma_bump_count(f1, table.last().0, clamp64(c), m);
            if table.last().0 == m {
                lemma_sat_add_chain(count_of(f, m), literal_total(t1, lines, m), c);
            }
        } else {
            if table.last().0 == m {
                assert(literal_total(table, lines, m) == literal_total(t1, lines, m));
            }
        }
    }
}

/// The code pass keeps the findings map sorted.
pub proof fn lemma_apply_codes_wf(f: Seq<(Seq<char>, u64)>, codes: Seq<Seq<char>>)
    requires
        findings_wf(f),
    ensures
        findings_wf(apply_codes(f, codes)),
    decreases codes.len(),
{
    if codes.len() > 0 {
        lemma_apply_codes_wf(f, codes.drop_last());
        lemma_bump_wf(apply_codes(f, codes.drop_last()), codes.last(), 1);
    }
}

/// The code pass raises each name once per extracted code equal to it,
/// clipped at the counter's ceiling.
pub proof fn lemma_apply_codes_count(
    f: Seq<(Seq<char>, u64)>,
    codes: Seq<Seq<char>>,
    m: Seq<char>,
)
    requires
        findings_wf(f),
    ensures
        count_of(apply_codes(f, codes), m) == sat_add(
            count_of(f, m),
            clamp64(occurrences(codes, m)),
        ),
    decreases codes.len(),
{
    if codes.len() == 0 {
        assert(clamp64(0) == 0);
    } else {
        let c1 = codes.drop_last();
        lemma_apply_codes_count(f, c1, m);
        lemma_apply_codes_wf(f, c1);
        lemma_bump_count(apply_codes(f, c1), codes.last(), 1, m);
        if codes.last() == m {
            lemma_sat_add_chain(count_of(f, m), occurrences(c1, m), 1);
        }
    }
}

/// What one log does to each finding name: its count grows by the number of
/// lines the name's literal signatures matched plus the number of extracted
/// codes equal to the name, clipped at the counter's ceiling. Every other
/// name keeps its count.
pub proof fn lemma_apply_log_counts(
    st: (Seq<(Seq<char>, u64)>, Seq<(Seq<char>, Seq<Seq<char>>)>),
    table: Seq<(Seq<char>, Seq<Seq<Seq<char>>>)>,
    unit: Seq<char>,
    log_ref: Seq<char>,
    log: Seq<char>,
    m: Seq<char>,
)
    requires
        findings_wf(st.0),
    ensures
        count_of(apply_log(st, table, unit, log_ref, log).0, m) == sat_add(
            count_of(st.0, m),
            clamp64(
                literal_total(table, split_lines(utf8(log)), m) + occurrences(
                    error_codes_of(log),
                    m,
                ),
            ),
        ),
{
    let lines = split_lines(utf8(log));
    let codes = error_codes_of(log);
    lemma_apply_literals_count(st.0, table, lines, m);
    lemma_apply_literals_wf(st.0, table, lines);
    lemma_apply_codes_count(apply_literals(st.0, table, lines), codes, m);
    lemma_sat_add_chain(count_of(st.0, m), literal_total(table, lines, m), occurrences(codes, m));
}

/// One completion of the fetch loop: a log that arrived, or a fetch that
/// failed and whose run is dropped from classification.
pub enum LogEvent {
    Fetched { unit: Seq<char>, log_ref: Seq<char>, log: Seq<char> },
    Failed,
}

/// The classifier state after one completion. A failed fetch leaves the
/// state untouched: the run counts in the eligible-run total but in neither
/// findings nor unclassified.
pub open spec fn apply_event(
    st: (Seq<(Seq<char>, u64)>, Seq<(Seq<char>, Seq<Seq<char>>)>),
    table: Seq<(Seq<char>, Seq<Seq<Seq<char>>>)>,
    ev: LogEvent,
) -> (Seq<(Seq<char>, u64)>, Seq<(Seq<char>, Seq<Seq<char>>)>) {
    match ev {
        LogEvent::Fetched { unit, log_ref, log } => apply_log(st, table, unit, log_ref, log),
        LogEvent::Failed => st,
    }
}

/// The classifier state after a whole sequence of completions, in order.
pub open spec fn fold_events(
    st: (Seq<(Seq<char>, u64)>, Seq<(Seq<char>, Seq<Seq<char>>)>),
    table: Seq<(Seq<char>, Seq<Seq<Seq<char>>>)>,
    evs: Seq<LogEvent>,
) -> (Seq<(Seq<char>, u64)>, Seq<(Seq<char>, Seq<Seq<char>>)>)
    decreases evs.len(),
{
    if evs.len() == 0 {
        st
    } else {
        apply_event(fold_events(st, table, evs.drop_last()), table, evs.last())
    }
}

/// How many completions brought a log.
pub open spec fn fetched_events(evs: Seq<LogEvent>) -> nat
    decreases evs.len(),
{
    if evs.len() == 0 {
        0
    } else {
        fetched_events(evs.drop_last()) + (match evs.last() {
            LogEvent::Fetched { .. } => 1nat,
            LogEvent::Failed => 0nat,
        })
    }
}

/// How many completions brought a log that matched at least one mechanism.
pub open spec fn matched_events(
    table: Seq<(Seq<char>, Seq<Seq<Seq<char>>>)>,
    evs: Seq<LogEvent>,
) -> nat
    decreases evs.len(),
{
    if evs.len() == 0 {
        0
    } else {
        matched_events(table, evs.drop_last()) + (match evs.last() {
            LogEvent::Fetched { log, .. } => if log_matched(
                table,
                split_lines(utf8(log)),
                error_codes_of(log),
            ) {
                1nat
            } else {
                0nat
            },
            LogEvent::Failed => 0nat,
        })
    }
}

/// Every fetched run lands in exactly one bucket: over any sequence of
/// completions, the unclassified total grows by exactly the number of
/// fetched logs that matched nothing; together with the matched logs that
/// accounts for every fetched log, while failed fetches touch neither side.
pub proof fn lemma_run_partition(
    st: (Seq<(Seq<char>, u64)>, Seq<(Seq<char>, Seq<Seq<char>>)>),
    table: Seq<(Seq<char>, Seq<Seq<Seq<char>>>)>,
    evs: Seq<LogEvent>,
)
    ensures
        matched_events(table, evs) <= fetched_events(evs),
        refs_total(fold_events(st, table, evs).1) + matched_events(table, evs) == refs_total(st.1)
            + fetched_events(evs),
    decreases evs.len(),
{
    if evs.len() > 0 {
        lemma_run_partition(st, table, evs.drop_last());
        let mid = fold_events(st, table, evs.drop_last());
        match evs.last() {
            LogEvent::Fetched { unit, log_ref, log } => {
                let lines = split_lines(utf8(log));
                let codes = error_codes_of(log);
                if !log_matched(table, lines, codes) {
                    lemma_append_total(mid.1, unit, log_ref);
                }
            },
            LogEvent::Failed => {},
        }
    }
}

/// One log keeps the findings map sorted.
pub proof fn lemma_apply_log_wf(
    st: (Seq<(Seq<char>, u64)>, Seq<(Seq<char>, Seq<Seq<char>>)>),
    table: Seq<(Seq<char>, Seq<Seq<Seq<char>>>)>,
    unit: Seq<char>,
    log_ref: Seq<char>,
    log: Seq<char>,
)
    requires
        findings_wf(st.0),
    ensures
        findings_wf(apply_log(st, table, unit, log_ref, log).0),
{
    let lines = split_lines(utf8(log));
    lemma_apply_literals_wf(st.0, table, lines);
    lemma_apply_codes_wf(apply_literals(st.0, table, lines), error_codes_of(log));
}

/// What one completion contributes to one finding name.
pub open spec fn event_delta(
    table: Seq<(Seq<char>, Seq<Seq<Seq<char>>>)>,
    ev: LogEvent,
    m: Seq<char>,
) -> nat {
    match ev {
        LogEvent::Fetched { log, .. } => literal_total(table, split_lines(utf8(log)), m)
            + occurrences(error_codes_of(log), m),
        LogEvent::Failed => 0,
    }
}

/// One completion raises each finding name by its own contribution,
/// clipped at the counter's ceiling.
pub proof fn lemma_apply_event_counts(
    st: (Seq<(Seq<char>, u64)>, Seq<(Seq<char>, Seq<Seq<char>>)>),
    table: Seq<(Seq<char>, Seq<Seq<Seq<char>>>)>,
    ev: LogEvent,
    m: Seq<char>,
)
    requires
        findings_wf(st.0),
    ensures
        findings_wf(apply_event(st, table, ev).0),
        count_of(apply_event(st, table, ev).0, m) == sat_add(
            count_of(st.0, m),
            clamp64(event_delta(table, ev, m)),
        ),
{
    match ev {
        LogEvent::Fetched { unit, log_ref, log } => {
            lemma_apply_log_counts(st, table, unit, log_ref, log, m);
            lemma_apply_log_wf(st, table, unit, log_ref, log);
        },
        LogEvent::Failed => {
            assert(clamp64(0) == 0);
        },
    }
}

/// Final counts do not depend on completion order: two completions may
/// arrive in either order and leave the same findings behind, because each
/// name's count only accumulates the two contributions. This is what lets
/// the fan-in loop fold completions in whatever order the fetches finish.
/// (The unclassified bucket is different: within one unit it keeps arrival
/// order, so the loop must feed one unit's runs in manifest order.)
pub proof fn lemma_findings_commute(
    st: (Seq<(Seq<char>, u64)>, Seq<(Seq<char>, Seq<Seq<char>>)>),
    table: Seq<(Seq<char>, Seq<Seq<Seq<char>>>)>,
    a: LogEvent,
    b: LogEvent,
)
    requires
        findings_wf(st.0),
    ensures
        apply_event(apply_event(st, table, a), table, b).0 == apply_event(
            apply_event(st, table, b),
            table,
            a,
        ).0,
{
    let ab = apply_event(apply_event(st, table, a), table, b).0;
    let ba = apply_event(apply_event(st, table, b), table, a).0;
    lemma_apply_event_counts(st, table, a, Seq::empty());
    lemma_apply_event_counts(st, table, b, Seq::empty());
    lemma_apply_event_counts(apply_event(st, table, a), table, b, Seq::empty());
    lemma_apply_event_counts(apply_event(st, table, b), table, a, Seq::empty());
    assert forall|m: Seq<char>| #[trigger] count_of(ab, m) == count_of(ba, m) by {
        let c = count_of(st.0, m);
        let da = event_delta(table, a, m);
        let db = event_delta(table, b, m);
        lemma_apply_event_counts(st, table, a, m);
        lemma_apply_event_counts(st, table, b, m);
        lemma_apply_event_counts(apply_event(st, table, a), table, b, m);
        lemma_apply_event_counts(apply_event(st, table, b), table, a, m);
        lemma_sat_add_chain(c, da, db);
        lemma_sat_add_chain(c, db, da);
    }
    lemma_counts_determine(ab, ba);
}

/// Classifying the same completions against the same signature table a
/// second time yields the same findings and the same unclassified bucket:
/// the folded state is a function of the starting state, the table and the
/// completion sequence alone — nothing else (no clock, no machine state)
/// enters `fold_events`, and `record_log` commits to exactly this fold.
pub proof fn lemma_classification_deterministic(
    st: (Seq<(Seq<char>, u64)>, Seq<(Seq<char>, Seq<Seq<char>>)>),
    table: Seq<(Seq<char>, Seq<Seq<Seq<char>>>)>,
    evs: Seq<LogEvent>,
    r1: (Seq<(Seq<char>, u64)>, Seq<(Seq<char>, Seq<Seq<char>>)>),
    r2: (Seq<(Seq<char>, u64)>, Seq<(Seq<char>, Seq<Seq<char>>)>),
)
    requires
        r1 == fold_events(st, table, evs),
        r2 == fold_events(st, table, evs),
    ensures
        r1 == r2,
{
}

/// The classifier accumulator: the shared state that the fan-in point of
/// the fetch loop folds each completion into.
pub struct Analysis {
    pub findings: Findings,
    pub unclassified: Unclassified,
}

impl Analysis {
    pub open spec fn wf(self) -> bool {
        findings_wf(self.findings@) && unclassified_wf(self.unclassified@)
    }

    /// The empty accumulator, the state before any completion.
    pub fn new() -> (r: Analysis)
        ensures
            r.wf(),
            r.findings@ =~= Seq::<(Seq<char>, u64)>::empty(),
            r.unclassified@ =~= Seq::<(Seq<char>, Seq<Seq<char>>)>::empty(),
    {
        Analysis { findings: Findings::new(), unclassified: Unclassified::new() }
    }

    /// Folds one fetched log into the accumulator: counts every literal
    /// signature of the configuration against the log's lines, raises one
    /// finding per extracted error code, and appends the run to the
    /// unclassified bucket if nothing matched.
    pub fn record_log(&mut self, cfg: &Config, unit: &str, log_ref: &str, log: &str)
        requires
            old(self).wf(),
        ensures
            final(self).wf(),
            (final(self).findings@, final(self).unclassified@) == apply_log(
                (old(self).findings@, old(self).unclassified@),
                cfg.targets.deep_view(),
                unit@,
                log_ref@,
                log@,
            ),
    {
        let ghost table = cfg.targets.deep_view();
        let ghost f0 = self.findings@;
        let lines = split_into_lines(log.as_bytes());
        proof {
            assert(lines.deep_view() == split_lines(utf8(log@)));
        }
        let mut matched = false;
        let n = cfg.targets.len();
        let mut e: usize = 0;
        proof {
            assert(table.subrange(0, 0) =~= Seq::<(Seq<char>, Seq<Seq<Seq<char>>>)>::empty());
        }
        while e < n
            invariant
                old(self).wf(),
                n == cfg.targets@.len(),
                table == cfg.targets.deep_view(),
                table.len() == n,
                e <= n,
                f0 == old(self).findings@,
                self.unclassified == old(self).unclassified,
                findings_wf(self.findings@),
                self.findings@ == apply_literals(
                    f0,
                    table.subrange(0, e as int),
                    lines.deep_view(),
                ),
                matched == any_literal_match(table.subrange(0, e as int), lines.deep_view()),
            decreases n - e,
        {
            let ghost pre = table.subrange(0, e as int);
            proof {
                assert(table.subrange(0, e + 1).drop_last() =~= pre);
                assert(table.subrange(0, e + 1).last() == table[e as int]);
                assert(table[e as int] == cfg.targets@[e as int].deep_view());
                assert(table[e as int].1 == cfg.targets@[e as int].alternatives.deep_view());
            }
            let c = count_matching_lines(&cfg.targets[e].alternatives, &lines);
            if c > 0 {
                self.findings.add(cfg.targets[e].name.as_str(), c as u64);
                matched = true;
                proof {
                    let cspec = entry_line_count(table[e as int].1, lines.deep_view());
                    assert(cspec == c as nat);
                    assert(clamp64(cspec) == c as u64);
                    assert(self.findings@ == apply_literals(
                        f0,
                        table.subrange(0, e + 1),
                        lines.deep_view(),
                    ));
                    assert(any_literal_match(table.subrange(0, e + 1), lines.deep_view())) by {
                        assert(table.subrange(0, e + 1)[e as int].1 == table[e as int].1);
                    }
                }
            } else {
                proof {
                    assert(self.findings@ == apply_literals(
                        f0,
                        table.subrange(0, e + 1),
                        lines.deep_view(),
                    ));
                    assert(any_literal_match(table.subrange(0, e + 1), lines.deep_view())
                        == matched) by {
                        assert(forall|j: int|
                            0 <= j < e + 1 ==> #[trigger] table.subrange(0, e + 1)[j]
                                == table.subrange(0, e as int + 1)[j]);
                        if any_literal_match(table.subrange(0, e + 1), lines.deep_view()) {
                            let j = choose|j: int|
                                0 <= j < e + 1 && entry_line_count(
                                    #[trigger] table.subrange(0, e + 1)[j].1,
                                    lines.deep_view(),
                                ) > 0;
                            if j == e {
                                assert(table.subrange(0, e + 1)[j].1 == table[e as int].1);
                                assert(false);
                            } else {
                                assert(table.subrange(0, e + 1)[j] == pre[j]);
                                assert(any_literal_match(pre, lines.deep_view()));
                            }
                        }
                        if matched {
                            let j = choose|j: int|
                                0 <= j < e && entry_line_count(
                                    #[trigger] pre[j].1,
                                    lines.deep_view(),
                                ) > 0;
                            assert(table.subrange(0, e + 1)[j] == pre[j]);
                        }
                    }
                }
            }
            e = e + 1;
        }
        proof {
            assert(table.subrange(0, n as int) =~= table);
        }
        let codes = scan_error_codes(log);
        let ghost codes_dv = codes.deep_view();
        let ghost f_lit = self.findings@;
        let m = codes.len();
        let mut i: usize = 0;
        proof {
            assert(codes_dv.subrange(0, 0) =~= Seq::<Seq<char>>::empty());
        }
        while i < m
            invariant
                old(self).wf(),
                m == codes@.len(),
                codes_dv == codes.deep_view(),
                codes_dv.len() == m,
                i <= m,
                self.unclassified == old(self).unclassified,
                findings_wf(self.findings@),
                self.findings@ == apply_codes(f_lit, codes_dv.subrange(0, i as int)),
            decreases m - i,
        {
            let ghost cpre = codes_dv.subrange(0, i as int);
            proof {
                assert(codes_dv.subrange(0, i + 1).drop_last() =~= cpre);
                assert(codes_dv.subrange(0, i + 1).last() == codes_dv[i as int]);
                assert(codes_dv[i as int] == codes@[i as int]@);
            }
            self.findings.add(codes[i].as_str(), 1);
            i = i + 1;
        }
        proof {
            assert(codes_dv.subrange(0, m as int) =~= codes_dv);
        }
        if !matched && codes.len() == 0 {
            proof {
                assert(codes_dv.len() == 0);
            }
            self.unclassified.push_ref(unit, log_ref);
        }
    }

    /// A run whose log could not be fetched is dropped: it stays in the
    /// eligible-run count but contributes to neither findings nor
    /// unclassified, and is surfaced only through diagnostics outside the
    /// library.
    pub fn record_fetch_failure(&mut self)
        ensures
            *final(self) == *old(self),
    {
    }
}

} // verus!
