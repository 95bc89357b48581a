//! Structural comparison of JSON documents under a configurable policy,
//! with a small path-expression language that addresses subtrees for
//! exclusion from comparison or for order-insensitive comparison, and the
//! reporting types of the assertion runner built on it.

pub mod diff;
pub mod domain;
pub mod misc;
pub mod parser;
pub mod path;
pub mod value;
pub mod variables;

use vstd::prelude::*;
use vstd::string::StringExecFns;

verus! {

/// What one executed test case came to: its identifier, and the failure
/// message if it failed.
pub struct TestOutcome {
    pub id: String,
    pub failure: Option<String>,
}

/// Mathematical model of a test outcome.
pub struct OutcomeModel {
    pub id: Seq<char>,
    pub failure: Option<Seq<char>>,
}

impl View for TestOutcome {
    type V = OutcomeModel;

    open spec fn view(&self) -> OutcomeModel {
        OutcomeModel {
            id: self.id@,
            failure: match &self.failure {
                Some(f) => Some(f@),
                None => None,
            },
        }
    }
}

/// The number of failed outcomes among the first i.
pub open spec fn count_failed(os: Seq<OutcomeModel>, i: int) -> int
    decreases i,
    when 0 <= i <= os.len()
{
    if i <= 0 {
        0
    } else {
        count_failed(os, i - 1) + (if os[i - 1].failure is Some {
            1int
        } else {
            0int
        })
    }
}

/// The summary text of the first i outcomes: one line per test case, its
/// identifier marked as passed or failed.
pub open spec fn summary_text(os: Seq<OutcomeModel>, i: int) -> Seq<char>
    decreases i,
    when 0 <= i <= os.len()
{
    if i <= 0 {
        Seq::empty()
    } else {
        summary_text(os, i - 1) + os[i - 1].id + (if os[i - 1].failure is Some {
            " \u{274c}\n"@
        } else {
            " \u{2705}\n"@
        })
    }
}

/// The failure details of the first i outcomes: one block per failed test
/// case, its identifier and its failure message.
pub open spec fn failures_text(os: Seq<OutcomeModel>, i: int) -> Seq<char>
    decreases i,
    when 0 <= i <= os.len()
{
    if i <= 0 {
        Seq::empty()
    } else {
        failures_text(os, i - 1) + (match os[i - 1].failure {
            Some(f) => "-------------\n"@ + os[i - 1].id + ": "@ + f + "\n"@,
            None => Seq::<char>::empty(),
        })
    }
}

/// Report of a run of assertions: how many test cases ran, how many failed,
/// a summary of all of them, and the details of the failed ones.
#[derive(Debug)]
pub struct Report {
    /// Total number of test cases.
    pub total_count: usize,
    /// Number of failed test cases.
    pub failed_count: usize,
    /// Summary of passed and failed test cases.
    pub summary: String,
    /// Detailed information about the failed assertions, when any failed.
    pub failures: Option<String>,
}

/// The rendered text of a report.
pub open spec fn spec_report_text(r: Report) -> Seq<char> {
    match r.failures {
        Some(f) => crate::path::dec_digits(r.total_count as int) + " tests\n"@ + r.summary@
            + "\nfailures:\n"@ + f@ + "\ntest result: FAILED. "@ + crate::path::dec_digits(
            r.total_count - r.failed_count,
        ) + " passed; "@ + crate::path::dec_digits(r.failed_count as int) + " failed"@,
        None => crate::path::dec_digits(r.total_count as int) + " tests\n"@ + r.summary@
            + "\ntest result: PASSED. "@ + crate::path::dec_digits(r.total_count as int)
            + " passed; 0 failed"@,
    }
}

impl Report {
    /// Builds a report from its parts.
    pub fn new(total_count: usize, failed_count: usize, summary: String, failures: Option<String>)
        -> (r: Report)
        ensures
            r.total_count == total_count,
            r.failed_count == failed_count,
            r.summary == summary,
            r.failures == failures,
    {
        Report { total_count, failed_count, summary, failures }
    }

    /// Builds the report of a run from the outcomes of its test cases:
    /// the summary holds one line per test case in order, and when any
    /// failed, the run is an error carrying the failure details.
    pub fn from_outcomes(outcomes: &Vec<TestOutcome>) -> (r: Result<Report, AssertionError>)
        ensures
            ({
                let os = Seq::new(outcomes@.len(), |i: int| outcomes@[i]@);
                let n = os.len() as int;
                match r {
                    Ok(rep) => count_failed(os, n) == 0 && rep.total_count == os.len()
                        && rep.failed_count == 0 && rep.summary@ == summary_text(os, n)
                        && rep.failures is None,
                    Err(AssertionError::TestSuiteError(rep)) => count_failed(os, n) > 0
                        && rep.total_count == os.len() && rep.failed_count == count_failed(os, n)
                        && rep.summary@ == summary_text(os, n) && (rep.failures matches Some(f)
                        && f@ == failures_text(os, n)),
                    Err(AssertionError::ParsingError(_)) => false,
                }
            }),
    {
        let ghost os = Seq::new(outcomes@.len(), |i: int| outcomes@[i]@);
        let n = outcomes.len();
        let mut failed: usize = 0;
        let mut summary = String::new();
        let mut failures = String::new();
        for k in 0..n
            invariant
                n == outcomes@.len(),
                os == Seq::new(outcomes@.len(), |i: int| outcomes@[i]@),
                failed as int == count_failed(os, k as int),
                failed <= k,
                summary@ == summary_text(os, k as int),
                failures@ == failures_text(os, k as int),
            decreases n - k,
        {
            proof {
                assert(os[k as int] == outcomes@[k as int]@);
            }
            summary.append(outcomes[k].id.as_str());
            match &outcomes[k].failure {
                Some(message) => {
                    summary.append(" \u{274c}\n");
                    failures.append("-------------\n");
                    failures.append(outcomes[k].id.as_str());
                    failures.append(": ");
                    failures.append(message.as_str());
                    failures.append("\n");
                    failed = failed + 1;
                },
                None => {
                    summary.append(" \u{2705}\n");
                },
            }
        }
        if failed == 0 {
            Ok(Report { total_count: n, failed_count: 0, summary, failures: None })
        } else {
            Err(
                AssertionError::TestSuiteError(
                    Report {
                        total_count: n,
                        failed_count: failed,
                        summary,
                        failures: Some(failures),
                    },
                ),
            )
        }
    }

    /// Renders this report as a human-readable text.
    pub fn render(&self) -> (r: String)
        requires
            self.failed_count <= self.total_count,
        ensures
            r@ == spec_report_text(*self),
    {
        let mut out = String::new();
        let total = crate::path::dec_string(self.total_count);
        out.append(total.as_str());
        out.append(" tests\n");
        out.append(self.summary.as_str());
        match &self.failures {
            Some(f) => {
                out.append("\nfailures:\n");
                out.append(f.as_str());
                out.append("\ntest result: FAILED. ");
                let passed = crate::path::dec_string(self.total_count - self.failed_count);
                out.append(passed.as_str());
                out.append(" passed; ");
                let failed = crate::path::dec_string(self.failed_count);
                out.append(failed.as_str());
                out.append(" failed");
            },
            None => {
                out.append("\ntest result: PASSED. ");
                out.append(total.as_str());
                out.append(" passed; 0 failed");
            },
        }
        out
    }
}

/// Why a run of assertions did not pass.
#[derive(Debug)]
pub enum AssertionError {
    /// A documentation file could not be parsed; carries the message.
    ParsingError(String),
    /// Some test cases failed; carries the report of the run.
    TestSuiteError(Report),
}

} // verus!
