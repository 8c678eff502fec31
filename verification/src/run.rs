//! The decisions of a run over files: whether files are rewritten, what each
//! file's outcome is reported as, and whether the run fails.

use vstd::prelude::*;

verus! {

/// Whether a run only reports unsorted files or rewrites them.
#[derive(Clone, Copy, Debug, PartialEq, Eq, Structural)]
pub enum Mode {
    Check,
    Fix,
}

/// What became of one file.
#[derive(Clone, Copy, Debug, PartialEq, Eq, Structural)]
pub enum Status {
    /// Already sorted.
    Clean,
    /// Not sorted, and left as it was.
    Unsorted,
    /// Not sorted, and rewritten sorted.
    Fixed,
    /// It could not be read, sorted or written.
    Failed,
}

/// The mode of a run: `--check` wins over `--fix`, and without `--fix`
/// files are only checked.
pub fn run_mode(check: bool, fix: bool) -> (m: Mode)
    ensures
        m == (if check || !fix { Mode::Check } else { Mode::Fix }),
{
    if check || !fix {
        Mode::Check
    } else {
        Mode::Fix
    }
}

/// The status of a file from what processing it gave: `None` where it
/// failed, else whether sorting changed its text.
pub fn file_status(mode: Mode, outcome: Option<bool>) -> (s: Status)
    ensures
        outcome is None ==> s is Failed,
        outcome == Some(false) ==> s is Clean,
        outcome == Some(true) ==> s == (if mode is Check { Status::Unsorted } else { Status::Fixed }),
{
    match outcome {
        None => Status::Failed,
        Some(false) => Status::Clean,
        Some(true) => match mode {
            Mode::Check => Status::Unsorted,
            Mode::Fix => Status::Fixed,
        },
    }
}

/// Whether a status makes the run fail.
pub open spec fn fails(s: Status) -> bool {
    s is Unsorted || s is Failed
}

/// Whether the run fails: some file is unsorted under check, or failed. A
/// run that fixed files succeeds.
pub fn run_fails(statuses: &Vec<Status>) -> (f: bool)
    ensures
        f == exists|i: int| 0 <= i < statuses@.len() && fails(#[trigger] statuses@[i]),
{
    let mut i: usize = 0;
    while i < statuses.len()
        invariant
            i <= statuses@.len(),
            forall|j: int| 0 <= j < i ==> !fails(#[trigger] statuses@[j]),
        decreases statuses@.len() - i,
    {
        match statuses[i] {
            Status::Unsorted | Status::Failed => {
                assert(fails(statuses@[i as int]));
                return true;
            },
            _ => {},
        }
        i += 1;
    }
    false
}

} // verus!
