//! The experiment manifest as loaded from the batch-testing service, and the
//! selection of the runs whose logs deserve inspection.

use vstd::prelude::*;

use crate::order::str_eq;

verus! {

/// One configuration's outcome for a unit.
pub struct RunResult {
    pub outcome: String,
    pub log_ref: String,
}

/// One tested unit with its aggregate outcome and per-configuration runs.
/// An absent run slot is a configuration that did not execute.
pub struct UnitResult {
    pub name: String,
    pub outcome: String,
    pub runs: Vec<Option<RunResult>>,
}

/// The deserialized manifest: the ordered units of one experiment.
pub struct Report {
    pub units: Vec<UnitResult>,
}

/// One run selected for log inspection.
pub struct WorkItem {
    pub unit: String,
    pub log_ref: String,
}

impl View for WorkItem {
    type V = (Seq<char>, Seq<char>);

    open spec fn view(&self) -> (Seq<char>, Seq<char>) {
        (self.unit@, self.log_ref@)
    }
}

impl DeepView for WorkItem {
    type V = (Seq<char>, Seq<char>);

    open spec fn deep_view(&self) -> (Seq<char>, Seq<char>) {
        self.view()
    }
}

/// How many units carry the expected outcome.
pub open spec fn regressed_count(units: Seq<UnitResult>, expected: Seq<char>) -> nat
    decreases units.len(),
{
    if units.len() == 0 {
        0
    } else {
        regressed_count(units.drop_last(), expected) + if units.last().outcome@ == expected {
            1nat
        } else {
            0nat
        }
    }
}

/// The eligible runs of one unit, in manifest order: present run slots whose
/// outcome equals the expected run outcome, paired with the unit's name.
pub open spec fn eligible_runs_of_unit(
    name: Seq<char>,
    runs: Seq<Option<RunResult>>,
    expected_run: Seq<char>,
) -> Seq<(Seq<char>, Seq<char>)>
    decreases runs.len(),
{
    if runs.len() == 0 {
        Seq::empty()
    } else {
        eligible_runs_of_unit(name, runs.drop_last(), expected_run) + (match runs.last() {
            Option::Some(run) => if run.outcome@ == expected_run {
                seq![(name, run.log_ref@)]
            } else {
                Seq::empty()
            },
            Option::None => Seq::empty(),
        })
    }
}

/// The whole work list, in manifest order: the eligible runs of every unit
/// whose outcome equals the expected unit outcome.
pub open spec fn eligible_items(
    units: Seq<UnitResult>,
    expected_unit: Seq<char>,
    expected_run: Seq<char>,
) -> Seq<(Seq<char>, Seq<char>)>
    decreases units.len(),
{
    if units.len() == 0 {
        Seq::empty()
    } else {
        eligible_items(units.drop_last(), expected_unit, expected_run) + (if units.last().outcome@
            == expected_unit {
            eligible_runs_of_unit(units.last().name@, units.last().runs@, expected_run)
        } else {
            Seq::empty()
        })
    }
}

/// No more units carry the expected outcome than there are units.
pub proof fn lemma_regressed_le(units: Seq<UnitResult>, expected: Seq<char>)
    ensures
        regressed_count(units, expected) <= units.len(),
    decreases units.len(),
{
    if units.len() > 0 {
        lemma_regressed_le(units.drop_last(), expected);
    }
}

impl Report {
    /// Selects the runs whose logs deserve inspection and counts the units
    /// with the expected outcome. The length of the returned work list is
    /// the eligible-run count of the analysis, fixed before any log is
    /// fetched.
    pub fn build_work_list(&self, expected_unit: &str, expected_run: &str) -> (r: (
        Vec<WorkItem>,
        usize,
    ))
        ensures
            r.0.deep_view() == eligible_items(self.units@, expected_unit@, expected_run@),
            r.1 == regressed_count(self.units@, expected_unit@),
    {
        let mut items: Vec<WorkItem> = Vec::new();
        let mut regressed: usize = 0;
        let n = self.units.len();
        let mut i: usize = 0;
        proof {
            assert(self.units@.subrange(0, 0) =~= Seq::<UnitResult>::empty());
        }
        while i < n
            invariant
                n == self.units@.len(),
                i <= n,
                regressed == regressed_count(self.units@.subrange(0, i as int), expected_unit@),
                items.deep_view() == eligible_items(
                    self.units@.subrange(0, i as int),
                    expected_unit@,
                    expected_run@,
                ),
            decreases n - i,
        {
            let ghost pre = self.units@.subrange(0, i as int);
            let unit = &self.units[i];
            proof {
                assert(self.units@.subrange(0, i + 1).drop_last() =~= pre);
                assert(self.units@.subrange(0, i + 1).last() == self.units@[i as int]);
            }
            if str_eq(unit.outcome.as_str(), expected_unit) {
                proof {
                    lemma_regressed_le(pre, expected_unit@);
                }
                regressed = regressed + 1;
                let m = unit.runs.len();
                let mut j: usize = 0;
                proof {
                    assert(unit.runs@.subrange(0, 0) =~= Seq::<Option<RunResult>>::empty());
                }
                while j < m
                    invariant
                        m == unit.runs@.len(),
                        j <= m,
                        unit == &self.units[i as int],
                        i < n == self.units@.len(),
                        items.deep_view() == eligible_items(
                            self.units@.subrange(0, i as int),
                            expected_unit@,
                            expected_run@,
                        ) + eligible_runs_of_unit(
                            unit.name@,
                            unit.runs@.subrange(0, j as int),
                            expected_run@,
                        ),
                    decreases m - j,
                {
                    let ghost rpre = unit.runs@.subrange(0, j as int);
                    proof {
                        assert(unit.runs@.subrange(0, j + 1).drop_last() =~= rpre);
                        assert(unit.runs@.subrange(0, j + 1).last() == unit.runs@[j as int]);
                    }
                    match &self.units[i].runs[j] {
                        Some(run) => {
                            if str_eq(run.outcome.as_str(), expected_run) {
                                let ghost before = items.deep_view();
                                items.push(
                                    WorkItem {
                                        unit: unit.name.clone(),
                                        log_ref: run.log_ref.clone(),
                                    },
                                );
                                proof {
                                    assert(items.deep_view() =~= before.push(
                                        (unit.name@, run.log_ref@),
                                    ));
                                    assert(eligible_runs_of_unit(
                                        unit.name@,
                                        unit.runs@.subrange(0, j + 1),
                                        expected_run@,
                                    ) =~= eligible_runs_of_unit(unit.name@, rpre, expected_run@)
                                        + seq![(unit.name@, run.log_ref@)]);
                                }
                            } else {
                                proof {
                                    assert(eligible_runs_of_unit(
                                        unit.name@,
                                        unit.runs@.subrange(0, j + 1),
                                        expected_run@,
                                    ) =~= eligible_runs_of_unit(unit.name@, rpre, expected_run@));
                                }
                            }
                        },
                        None => {
                            proof {
                                assert(eligible_runs_of_unit(
                                    unit.name@,
                                    unit.runs@.subrange(0, j + 1),
                                    expected_run@,
                                ) =~= eligible_runs_of_unit(unit.name@, rpre, expected_run@));
                            }
                        },
                    }
                    j = j + 1;
                }
                proof {
                    assert(unit.runs@.subrange(0, m as int) =~= unit.runs@);
                    assert(eligible_items(self.units@.subrange(0, i + 1), expected_unit@,
                        expected_run@) =~= eligible_items(pre, expected_unit@, expected_run@)
                        + eligible_runs_of_unit(unit.name@, unit.runs@, expected_run@));
                }
            } else {
                proof {
                    assert(eligible_items(self.units@.subrange(0, i + 1), expected_unit@,
                        expected_run@) =~= eligible_items(pre, expected_unit@, expected_run@));
                }
            }
            i = i + 1;
        }
        proof {
            assert(self.units@.subrange(0, n as int) =~= self.units@);
        }
        (items, regressed)
    }
}

} // verus!
