//! The decisions of a run over many playlist files: what to do before the
//! first file, how each file's outcome is counted (a file that fails is
//! counted and the run goes on), whether a file's output is written, and the
//! exit status at the end. The caller reads and writes the files and hands
//! each outcome in as a `FileEvent`.
use vstd::prelude::*;

verus! {

/// How the files of a run have fared so far.
#[derive(Clone, Copy)]
pub struct BatchTally {
    /// Files formatted without a warning (and written, unless checking).
    pub clean: u64,
    /// Files formatted with at least one repair (and written, unless checking).
    pub repaired: u64,
    /// Files that could not be read, were rejected, or could not be written.
    pub failed: u64,
    /// Referenced local files that do not exist.
    pub missing: u64,
}

/// What happened to one file.
pub enum FileEvent {
    /// The file could not be read.
    Unreadable,
    /// The formatter rejected the file.
    Rejected,
    /// The file was formatted with `warnings` repairs; `missing` of the files
    /// its output refers to do not exist.
    Formatted { warnings: u64, missing: u64 },
    /// The formatted output, which had `warnings` repairs, was written.
    Written { warnings: u64 },
    /// The output (or its directory) could not be written.
    WriteFailed,
}

/// `x + y`, or the largest `u64` where that does not fit.
pub open spec fn sat_add(x: u64, y: u64) -> u64 {
    if x + y > u64::MAX {
        u64::MAX
    } else {
        (x + y) as u64
    }
}

pub open spec fn with_failure(t: BatchTally) -> BatchTally {
    BatchTally { failed: sat_add(t.failed, 1), ..t }
}

/// One more file done: clean when it had no warning, repaired otherwise.
pub open spec fn with_done(t: BatchTally, warnings: u64) -> BatchTally {
    if warnings == 0 {
        BatchTally { clean: sat_add(t.clean, 1), ..t }
    } else {
        BatchTally { repaired: sat_add(t.repaired, 1), ..t }
    }
}

/// The tally after event `e`, and whether the file's output is to be
/// written now. A failure is counted and the run goes on; under `check` a
/// formatted file is counted at once and nothing is written; otherwise it is
/// counted once its output has been written.
pub open spec fn tally_after(t: BatchTally, e: FileEvent, check: bool) -> (BatchTally, bool) {
    match e {
        FileEvent::Unreadable => (with_failure(t), false),
        FileEvent::Rejected => (with_failure(t), false),
        FileEvent::WriteFailed => (with_failure(t), false),
        FileEvent::Formatted { warnings, missing } => {
            let t2 = BatchTally { missing: sat_add(t.missing, missing), ..t };
            if check {
                (with_done(t2, warnings), false)
            } else {
                (t2, true)
            }
        },
        FileEvent::Written { warnings } => (with_done(t, warnings), false),
    }
}

/// The exit status of a run: 1 when a file failed or a referenced file is
/// missing, or, under `check`, when a file needed repair; 0 otherwise.
pub open spec fn exit_status(t: BatchTally, check: bool) -> u8 {
    if t.failed > 0 || t.missing > 0 {
        1
    } else if check && t.repaired > 0 {
        1
    } else {
        0
    }
}

fn add_sat(x: u64, y: u64) -> (r: u64)
    ensures
        r == sat_add(x, y),
{
    if x > u64::MAX - y {
        u64::MAX
    } else {
        x + y
    }
}

/// The tally before the first file.
pub fn batch_tally_new() -> (r: BatchTally)
    ensures
        r == (BatchTally { clean: 0, repaired: 0, failed: 0, missing: 0 }),
{
    BatchTally { clean: 0, repaired: 0, failed: 0, missing: 0 }
}

/// What a run over `n_files` files does before the first one: `Some` exit
/// status where it stops at once (0 when there are no files; 2 when the
/// output would have nowhere to go), `None` where it goes on.
pub fn batch_start(n_files: usize, check: bool, has_output: bool) -> (r: Option<u8>)
    ensures
        r == (if n_files == 0 {
            Some(0u8)
        } else if !check && !has_output {
            Some(2u8)
        } else {
            None
        }),
{
    if n_files == 0 {
        Some(0)
    } else if !check && !has_output {
        Some(2)
    } else {
        None
    }
}

/// Counts event `e` into the tally `t`, and says whether the file's output
/// is to be written now.
pub fn batch_step(t: BatchTally, e: FileEvent, check: bool) -> (r: (BatchTally, bool))
    ensures
        r == tally_after(t, e, check),
{
    match e {
        FileEvent::Unreadable | FileEvent::Rejected | FileEvent::WriteFailed => (
            BatchTally { failed: add_sat(t.failed, 1), ..t },
            false,
        ),
        FileEvent::Formatted { warnings, missing } => {
            let t2 = BatchTally { missing: add_sat(t.missing, missing), ..t };
            if check {
                (done(t2, warnings), false)
            } else {
                (t2, true)
            }
        },
        FileEvent::Written { warnings } => (done(t, warnings), false),
    }
}

fn done(t: BatchTally, warnings: u64) -> (r: BatchTally)
    ensures
        r == with_done(t, warnings),
{
    if warnings == 0 {
        BatchTally { clean: add_sat(t.clean, 1), ..t }
    } else {
        BatchTally { repaired: add_sat(t.repaired, 1), ..t }
    }
}

/// The exit status at the end of a run.
pub fn batch_exit_code(t: BatchTally, check: bool) -> (r: u8)
    ensures
        r == exit_status(t, check),
{
    if t.failed > 0 || t.missing > 0 {
        1
    } else if check && t.repaired > 0 {
        1
    } else {
        0
    }
}

/// The exit status of a run over one file that was formatted with
/// `warnings` repairs and whose output refers to `missing` files that do not
/// exist (the file's own tally, run through `batch_step` and
/// `batch_exit_code`).
pub fn single_exit_code(warnings: u64, missing: u64, check: bool) -> (r: u8)
    ensures
        r == exit_status(
            tally_after(
                BatchTally { clean: 0, repaired: 0, failed: 0, missing: 0 },
                FileEvent::Formatted { warnings, missing },
                check,
            ).0,
            check,
        ),
        r == (if missing > 0 || (check && warnings > 0) {
            1u8
        } else {
            0u8
        }),
{
    let (t, _) = batch_step(batch_tally_new(), FileEvent::Formatted { warnings, missing }, check);
    batch_exit_code(t, check)
}

// ---------------------------------------------------------------------------
// Laws
// ---------------------------------------------------------------------------

/// A failing file is counted and the run goes on: a failure changes nothing
/// but the failure count, and never asks for a write.
pub proof fn law_failure_is_counted_and_the_run_goes_on(t: BatchTally, check: bool)
    requires
        t.failed < u64::MAX,
    ensures
        tally_after(t, FileEvent::Unreadable, check) == (
        BatchTally { failed: (t.failed + 1) as u64, ..t },
        false,
    ),
        tally_after(t, FileEvent::Rejected, check) == (
        BatchTally { failed: (t.failed + 1) as u64, ..t },
        false,
    ),
        tally_after(t, FileEvent::WriteFailed, check) == (
        BatchTally { failed: (t.failed + 1) as u64, ..t },
        false,
    ),
        exit_status(tally_after(t, FileEvent::Rejected, check).0, check) == 1,
{
}

/// Under `check` nothing is ever written.
pub proof fn law_check_never_writes(t: BatchTally, e: FileEvent)
    ensures
        !tally_after(t, e, true).1,
{
}

/// A run exits nonzero exactly when a file failed, a referenced file is
/// missing, or, under `check`, a file needed repair.
pub proof fn law_exit_status(t: BatchTally, check: bool)
    ensures
        (exit_status(t, check) != 0) == (t.failed > 0 || t.missing > 0 || (check && t.repaired
            > 0)),
{
}

/// A file that is done counts by its warnings: without a warning it is one
/// more clean file, with at least one it is one more repaired file, and
/// nothing else changes. That holds for a written file, and under `check`
/// for a formatted one (whose missing references are added too); without
/// `check` a formatted file is not counted until it is written, and is to be
/// written.
pub proof fn law_done_file_counts_by_its_warnings(
    t: BatchTally,
    warnings: u64,
    missing: u64,
    check: bool,
)
    requires
        t.clean < u64::MAX,
        t.repaired < u64::MAX,
        t.missing + missing <= u64::MAX,
    ensures
        ({
            let r = tally_after(t, FileEvent::Written { warnings }, check);
            &&& !r.1
            &&& r.0.clean == (if warnings == 0 {
                t.clean + 1
            } else {
                t.clean as int
            })
            &&& r.0.repaired == (if warnings > 0 {
                t.repaired + 1
            } else {
                t.repaired as int
            })
            &&& r.0.failed == t.failed
            &&& r.0.missing == t.missing
        }),
        ({
            let r = tally_after(t, FileEvent::Formatted { warnings, missing }, true);
            &&& !r.1
            &&& r.0.clean == (if warnings == 0 {
                t.clean + 1
            } else {
                t.clean as int
            })
            &&& r.0.repaired == (if warnings > 0 {
                t.repaired + 1
            } else {
                t.repaired as int
            })
            &&& r.0.failed == t.failed
            &&& r.0.missing == t.missing + missing
        }),
        ({
            let r = tally_after(t, FileEvent::Formatted { warnings, missing }, false);
            &&& r.1
            &&& r.0.clean == t.clean
            &&& r.0.repaired == t.repaired
            &&& r.0.failed == t.failed
            &&& r.0.missing == t.missing + missing
        }),
{
}

} // verus!
