//! The inspection of journals and outboxes, from a command line to what is printed
//! and whether it counts as a success.

use vstd::prelude::*;

use crate::execution_outbox::{outbox_header, outbox_records};
use crate::journal::journal_records;
use crate::journal_inspect::{
    diff_journals, diff_text, difference, dump_journal, dump_outbox, flags_from, format_diff,
    format_verify, outbox_lines, parse_args, record_lines, selected, selected_reports, verified,
    verify_journal, verify_text, ArgError, Args, DumpFilter, JournalDiff,
};
use crate::text::{chars_of, is_text};

verus! {

/// What is to be inspected. Files are given by their position on the command line.
#[derive(Clone, Copy, Debug)]
pub enum Plan {
    /// The records of a journal or an outbox.
    Dump { path: usize, outbox: bool, filter: DumpFilter },
    /// Whether a journal is contiguous.
    Verify { path: usize },
    /// Where two journals differ.
    Diff { path: usize, path2: usize },
}

/// Why nothing is inspected.
#[derive(Clone, Copy, Debug, PartialEq, Eq, Structural)]
pub enum PlanError {
    /// The command line cannot be read.
    Args(ArgError),
    /// No file is named.
    PathRequired,
    /// A comparison needs a second file.
    SecondPathRequired,
    /// The first word is no sub-command.
    UnknownCommand,
}

/// A command line without flags.
pub open spec fn no_flags() -> Args {
    Args {
        path: None,
        path2: None,
        outbox: false,
        filter: DumpFilter { from_seq: None, to_seq: None, from_ts: None, to_ts: None },
    }
}

/// What a command line asks for.
pub open spec fn planned(args: Seq<String>) -> Result<Plan, PlanError> {
    if args.len() == 0 {
        Err(PlanError::Args(ArgError::MissingCommand))
    } else {
        match flags_from(args, 1, no_flags()) {
            Err(error) => Err(PlanError::Args(error)),
            Ok(flags) => match flags.path {
                None => Err(PlanError::PathRequired),
                Some(path) => if args[0]@ == "dump"@ {
                    Ok(Plan::Dump { path, outbox: flags.outbox, filter: flags.filter })
                } else if args[0]@ == "verify"@ {
                    Ok(Plan::Verify { path })
                } else if args[0]@ == "diff"@ {
                    match flags.path2 {
                        None => Err(PlanError::SecondPathRequired),
                        Some(path2) => Ok(Plan::Diff { path, path2 }),
                    }
                } else {
                    Err(PlanError::UnknownCommand)
                },
            },
        }
    }
}

/// Reads what is to be inspected from a command line.
pub fn plan_inspection(args: &Vec<String>) -> (r: Result<Plan, PlanError>)
    ensures
        r == planned(args@),
{
    let flags = match parse_args(args) {
        Ok(flags) => flags,
        Err(error) => {
            return Err(PlanError::Args(error));
        },
    };
    let path: usize = match flags.path {
        Some(path) => path,
        None => {
            return Err(PlanError::PathRequired);
        },
    };
    let command = chars_of(args[0].as_str());
    let word = command.as_slice();
    proof {
        reveal_strlit("dump");
        reveal_strlit("verify");
        reveal_strlit("diff");
    }
    if is_text(word, "dump") {
        Ok(Plan::Dump { path, outbox: flags.outbox, filter: flags.filter })
    } else if is_text(word, "verify") {
        Ok(Plan::Verify { path })
    } else if is_text(word, "diff") {
        match flags.path2 {
            Some(path2) => Ok(Plan::Diff { path, path2 }),
            None => Err(PlanError::SecondPathRequired),
        }
    } else {
        Err(PlanError::UnknownCommand)
    }
}

/// What an inspection found to be wrong.
#[derive(Clone, Copy, Debug, PartialEq, Eq, Structural)]
pub enum Defect {
    /// The journal has a gap in its sequence.
    Gap,
    /// The journals differ.
    Diverged,
}

/// What an inspection prints, how many records it printed, and what it found to be
/// wrong.
#[derive(Debug)]
pub struct Inspection {
    pub text: String,
    pub records: usize,
    pub defect: Option<Defect>,
}

/// What an [`Inspection`] holds.
#[verifier::ext_equal]
pub struct InspectionView {
    pub text: Seq<char>,
    pub records: nat,
    pub defect: Option<Defect>,
}

impl View for Inspection {
    type V = InspectionView;

    open spec fn view(&self) -> InspectionView {
        InspectionView { text: self.text@, records: self.records as nat, defect: self.defect }
    }
}

/// The outcome of an inspection of a file with content `a` and, in a comparison,
/// of one with content `b`; `None` if one is of another format.
pub open spec fn inspected(plan: Plan, a: Seq<u8>, b: Seq<u8>) -> Option<InspectionView> {
    match plan {
        Plan::Dump { outbox: true, filter, .. } => if a.len() >= 8 && a.take(8)
            == outbox_header() {
            let shown = selected_reports(outbox_records(a, 8), filter);
            Some(
                InspectionView { text: outbox_lines(shown), records: shown.len(), defect: None },
            )
        } else {
            None
        },
        Plan::Dump { filter, .. } => match journal_records(a) {
            None => None,
            Some(records) => {
                let shown = selected(records, filter);
                Some(
                    InspectionView {
                        text: record_lines(shown),
                        records: shown.len(),
                        defect: None,
                    },
                )
            },
        },
        Plan::Verify { .. } => match journal_records(a) {
            None => None,
            Some(records) => Some(
                InspectionView {
                    text: verify_text(verified(records)),
                    records: 0,
                    defect: if verified(records).contiguous {
                        None
                    } else {
                        Some(Defect::Gap)
                    },
                },
            ),
        },
        Plan::Diff { .. } => match (journal_records(a), journal_records(b)) {
            (Some(x), Some(y)) => Some(
                InspectionView {
                    text: diff_text(difference(x, y, 0)),
                    records: 0,
                    defect: if difference(x, y, 0) is Identical {
                        None
                    } else {
                        Some(Defect::Diverged)
                    },
                },
            ),
            _ => None,
        },
    }
}

/// Inspects a file with content `a`, compared to one with content `b` where that
/// is asked for.
pub fn inspect(plan: &Plan, a: &[u8], b: &[u8]) -> (r: Option<Inspection>)
    ensures
        match r {
            Some(found) => inspected(*plan, a@, b@) == Some(found@),
            None => inspected(*plan, a@, b@) is None,
        },
{
    match plan {
        Plan::Dump { outbox, filter, .. } => {
            let shown = if *outbox {
                match dump_outbox(a, filter) {
                    Ok(shown) => shown,
                    Err(_) => {
                        return None;
                    },
                }
            } else {
                match dump_journal(a, filter) {
                    Some(shown) => shown,
                    None => {
                        return None;
                    },
                }
            };
            let (text, records) = shown;
            let found = Inspection { text, records, defect: None };
            assert(inspected(*plan, a@, b@)->0 =~= found@);
            Some(found)
        },
        Plan::Verify { .. } => match verify_journal(a) {
            None => None,
            Some(report) => {
                let text = format_verify(&report);
                let defect = if report.contiguous {
                    None
                } else {
                    Some(Defect::Gap)
                };
                let found = Inspection { text, records: 0, defect };
                assert(inspected(*plan, a@, b@)->0 =~= found@);
                Some(found)
            },
        },
        Plan::Diff { .. } => match diff_journals(a, b) {
            None => None,
            Some(diff) => {
                let text = format_diff(&diff);
                let defect = match diff {
                    JournalDiff::Identical => None,
                    _ => Some(Defect::Diverged),
                };
                let found = Inspection { text, records: 0, defect };
                assert(inspected(*plan, a@, b@)->0 =~= found@);
                Some(found)
            },
        },
    }
}

} // verus!
