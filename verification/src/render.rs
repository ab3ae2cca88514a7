//! The final analysis artifact and its deterministic textual rendering.

use vstd::prelude::*;

use vstd::string::StringExecFns;

use crate::findings::Findings;
use crate::findings::counts_total;
use crate::unclassified::Unclassified;

verus! {

/// The frozen outcome of one experiment's analysis, rendered once.
///
/// `interesting_results_count` counts every eligible run, including runs
/// whose log could not be fetched; those dropped runs appear in neither
/// `findings` nor `other`, so the sum of the findings must not be assumed
/// to reach this count.
pub struct AnalysisReport {
    pub experiment: String,
    pub expected_krate_result: String,
    pub expected_run_result: String,
    pub regressed_count: usize,
    pub interesting_results_count: usize,
    pub findings: Findings,
    pub other: Unclassified,
}

/// The decimal digit character for `d`.
pub open spec fn digit(d: nat) -> char {
    if d == 0 {
        '0'
    } else if d == 1 {
        '1'
    } else if d == 2 {
        '2'
    } else if d == 3 {
        '3'
    } else if d == 4 {
        '4'
    } else if d == 5 {
        '5'
    } else if d == 6 {
        '6'
    } else if d == 7 {
        '7'
    } else if d == 8 {
        '8'
    } else {
        '9'
    }
}

/// The decimal digits of `n`, most significant first.
pub open spec fn dec_str(n: nat) -> Seq<char>
    decreases n,
{
    if n < 10 {
        seq![digit(n)]
    } else {
        dec_str(n / 10).push(digit(n % 10))
    }
}

fn digit_str(d: u64) -> (r: &'static str)
    requires
        d < 10,
    ensures
        r@ == seq![digit(d as nat)],
{
    proof {
        reveal_strlit("0");
        reveal_strlit("1");
        reveal_strlit("2");
        reveal_strlit("3");
        reveal_strlit("4");
        reveal_strlit("5");
        reveal_strlit("6");
        reveal_strlit("7");
        reveal_strlit("8");
        reveal_strlit("9");
    }
    let r = match d {
        0 => "0",
        1 => "1",
        2 => "2",
        3 => "3",
        4 => "4",
        5 => "5",
        6 => "6",
        7 => "7",
        8 => "8",
        _ => "9",
    };
    proof {
        assert(r@ =~= seq![digit(d as nat)]);
    }
    r
}

/// Appends the decimal form of `n`.
fn push_dec(out: &mut String, n: u64)
    ensures
        final(out)@ == old(out)@ + dec_str(n as nat),
    decreases n,
{
    if n >= 10 {
        push_dec(out, n / 10);
    }
    out.append(digit_str(n % 10));
    proof {
        if n < 10 {
            assert(old(out)@ + seq![digit(n as nat)] =~= old(out)@ + dec_str(n as nat));
        } else {
            assert((old(out)@ + dec_str((n / 10) as nat)) + seq![digit((n % 10) as nat)]
                =~= old(out)@ + dec_str((n / 10) as nat).push(digit((n % 10) as nat)));
        }
    }
}

/// The findings section: one `name: count` line per finding, in map order.
pub open spec fn render_findings(s: Seq<(Seq<char>, u64)>) -> Seq<char>
    decreases s.len(),
{
    if s.len() == 0 {
        Seq::empty()
    } else {
        render_findings(s.drop_last()) + s.last().0 + ": "@ + dec_str(s.last().1 as nat) + "\n"@
    }
}

/// A quoted string's characters: `"` and `\` carry a backslash in front,
/// as the debug formatter writes them; every other character stands
/// verbatim.
pub open spec fn esc_quoted(s: Seq<char>) -> Seq<char>
    decreases s.len(),
{
    if s.len() == 0 {
        Seq::empty()
    } else {
        (if s[0] == '"' {
            seq!['\\', '"']
        } else if s[0] == '\\' {
            seq!['\\', '\\']
        } else {
            seq![s[0]]
        }) + esc_quoted(s.drop_first())
    }
}

/// Appends `s` with `"` and `\` escaped.
fn push_quoted(out: &mut String, s: &str)
    ensures
        final(out)@ == old(out)@ + esc_quoted(s@),
{
    let n = s.unicode_len();
    let mut i: usize = 0;
    proof {
        assert(s@.subrange(0, n as int) =~= s@);
    }
    while i < n
        invariant
            n == s@.len(),
            i <= n,
            out@ + esc_quoted(s@.subrange(i as int, n as int)) =~= old(out)@ + esc_quoted(s@),
        decreases n - i,
    {
        let ghost rest = s@.subrange(i as int, n as int);
        let c = s.get_char(i);
        proof {
            reveal_strlit("\\\"");
            reveal_strlit("\\\\");
            assert(rest[0] == s@[i as int]);
            assert(rest.drop_first() =~= s@.subrange(i + 1, n as int));
        }
        if c == '"' {
            out.append("\\\"");
        } else if c == '\\' {
            out.append("\\\\");
        } else {
            let piece = s.substring_char(i, i + 1);
            proof {
                assert(piece@ =~= seq![s@[i as int]]);
            }
            out.append(piece);
        }
        proof {
            assert(out@ + esc_quoted(s@.subrange(i + 1, n as int)) =~= old(out)@ + esc_quoted(
                s@,
            ));
        }
        i = i + 1;
    }
    proof {
        assert(s@.subrange(n as int, n as int) =~= Seq::<char>::empty());
        assert(out@ =~= old(out)@ + esc_quoted(s@));
    }
}

/// One unit's unclassified references, each on a line of its own.
pub open spec fn render_refs(refs: Seq<Seq<char>>) -> Seq<char>
    decreases refs.len(),
{
    if refs.len() == 0 {
        Seq::empty()
    } else {
        render_refs(refs.drop_last()) + "        \""@ + esc_quoted(refs.last()) + "\",\n"@
    }
}

/// The inner lines of the unclassified structure, one block per unit.
pub open spec fn render_units(u: Seq<(Seq<char>, Seq<Seq<char>>)>) -> Seq<char>
    decreases u.len(),
{
    if u.len() == 0 {
        Seq::empty()
    } else {
        render_units(u.drop_last()) + "    \""@ + esc_quoted(u.last().0) + "\": [\n"@
            + render_refs(u.last().1) + "    ],\n"@
    }
}

/// The unclassified structure as printed for manual follow-up. Names and
/// references are quoted, with `"` and `\` escaped as the debug format
/// writes them; other characters stand verbatim.
pub open spec fn render_unclassified(u: Seq<(Seq<char>, Seq<Seq<char>>)>) -> Seq<char> {
    if u.len() == 0 {
        "{}"@
    } else {
        "{\n"@ + render_units(u) + "}"@
    }
}

/// The whole report text.
pub open spec fn render_spec(r: AnalysisReport) -> Seq<char> {
    "Report for Crater Experiment "@ + r.experiment@ + "\n"@ + r.expected_krate_result@
        + " crates: "@ + dec_str(r.regressed_count as nat) + "\n"@ + r.expected_run_result@
        + " runs: "@ + dec_str(r.interesting_results_count as nat) + "\n"@
        + "----------------------------------\n"@ + "Results:\n"@ + render_findings(r.findings@)
        + "----------------------------------\n"@ + "sum: "@ + dec_str(
        counts_total(r.findings@) as nat,
    ) + "\n"@ + "others: "@ + dec_str(r.other@.len()) + "\n"@
        + "----------------------------------\n"@ + render_unclassified(r.other@) + "\n"@
}

impl AnalysisReport {
    /// Renders the report: header, per-finding counts in ascending name
    /// order, their sum, and the unclassified structure grouped by unit.
    pub fn print_report(&self) -> (text: String)
        ensures
            text@ == render_spec(*self),
    {
        let mut out = String::new();
        out.append("Report for Crater Experiment ");
        out.append(self.experiment.as_str());
        out.append("\n");
        out.append(self.expected_krate_result.as_str());
        out.append(" crates: ");
        push_dec(&mut out, self.regressed_count as u64);
        out.append("\n");
        out.append(self.expected_run_result.as_str());
        out.append(" runs: ");
        push_dec(&mut out, self.interesting_results_count as u64);
        out.append("\n");
        out.append("----------------------------------\n");
        out.append("Results:\n");
        let ghost header = out@;
        let n = self.findings.len();
        let mut i: usize = 0;
        proof {
            assert(self.findings@.subrange(0, 0) =~= Seq::<(Seq<char>, u64)>::empty());
            assert(out@ =~= header + render_findings(self.findings@.subrange(0, 0)));
        }
        while i < n
            invariant
                n == self.findings@.len(),
                i <= n,
                out@ == header + render_findings(self.findings@.subrange(0, i as int)),
            decreases n - i,
        {
            let ghost pre = self.findings@.subrange(0, i as int);
            proof {
                assert(self.findings@.subrange(0, i + 1).drop_last() =~= pre);
                assert(self.findings@.subrange(0, i + 1).last() == self.findings@[i as int]);
            }
            out.append(self.findings.name_at(i).as_str());
            out.append(": ");
            push_dec(&mut out, self.findings.count_at(i));
            out.append("\n");
            proof {
                assert(out@ =~= header + render_findings(self.findings@.subrange(0, i + 1)));
            }
            i = i + 1;
        }
        proof {
            assert(self.findings@.subrange(0, n as int) =~= self.findings@);
        }
        out.append("----------------------------------\n");
        out.append("sum: ");
        push_dec(&mut out, self.findings.total());
        out.append("\n");
        out.append("others: ");
        push_dec(&mut out, self.other.len() as u64);
        out.append("\n");
        out.append("----------------------------------\n");
        let ghost body = out@;
        let m = self.other.len();
        if m == 0 {
            out.append("{}");
        } else {
            out.append("{\n");
            let ghost opened = out@;
            let mut u: usize = 0;
            proof {
                assert(self.other@.subrange(0, 0) =~= Seq::<(Seq<char>, Seq<Seq<char>>)>::empty());
                assert(out@ =~= opened + render_units(self.other@.subrange(0, 0)));
            }
            while u < m
                invariant
                    m == self.other@.len(),
                    u <= m,
                    out@ == opened + render_units(self.other@.subrange(0, u as int)),
                decreases m - u,
            {
                let ghost upre = self.other@.subrange(0, u as int);
                proof {
                    assert(self.other@.subrange(0, u + 1).drop_last() =~= upre);
                    assert(self.other@.subrange(0, u + 1).last() == self.other@[u as int]);
                }
                out.append("    \"");
                push_quoted(&mut out, self.other.unit_at(u).as_str());
                out.append("\": [\n");
                let ghost mid = out@;
                let refs = self.other.refs_at(u);
                let k = refs.len();
                let mut j: usize = 0;
                proof {
                    assert(refs.deep_view().subrange(0, 0) =~= Seq::<Seq<char>>::empty());
                    assert(out@ =~= mid + render_refs(refs.deep_view().subrange(0, 0)));
                }
                while j < k
                    invariant
                        k == refs@.len(),
                        refs.deep_view() == self.other@[u as int].1,
                        u < m == self.other@.len(),
                        j <= k,
                        out@ == mid + render_refs(refs.deep_view().subrange(0, j as int)),
                    decreases k - j,
                {
                    let ghost rpre = refs.deep_view().subrange(0, j as int);
                    proof {
                        assert(refs.deep_view().subrange(0, j + 1).drop_last() =~= rpre);
                        assert(refs.deep_view().subrange(0, j + 1).last() == refs.deep_view()[j as int]);
                        assert(refs.deep_view()[j as int] == refs@[j as int]@);
                    }
                    out.append("        \"");
                    push_quoted(&mut out, refs[j].as_str());
                    out.append("\",\n");
                    proof {
                        assert(out@ =~= mid + render_refs(refs.deep_view().subrange(0, j + 1)));
                    }
                    j = j + 1;
                }
                proof {
                    assert(refs.deep_view().subrange(0, k as int) =~= refs.deep_view());
                }
                out.append("    ],\n");
                proof {
                    assert(out@ =~= opened + render_units(self.other@.subrange(0, u + 1)));
                }
                u = u + 1;
            }
            proof {
                assert(self.other@.subrange(0, m as int) =~= self.other@);
            }
            out.append("}");
            proof {
                assert(out@ =~= body + render_unclassified(self.other@));
            }
        }
        out.append("\n");
        proof {
            assert(out@ =~= render_spec(*self));
        }
        out
    }
}

} // verus!
