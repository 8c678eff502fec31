//! How the command line's arguments name what is to be sorted.

use vstd::prelude::*;
use crate::text::chars_of;

verus! {

/// Whether an argument is a glob pattern rather than a path: it holds `*`,
/// `?` or `[`.
pub open spec fn glob_like(argument: Seq<char>) -> bool {
    exists|i: int|
        0 <= i < argument.len() && (#[trigger] argument[i] == '*' || argument[i] == '?'
            || argument[i] == '[')
}

/// Whether `argument` is to be expanded as a glob pattern.
pub fn is_glob_pattern(argument: &str) -> (res: bool)
    ensures
        res == glob_like(argument@),
{
    let chars = chars_of(argument);
    let mut i: usize = 0;
    while i < chars.len()
        invariant
            i <= chars.len(),
            chars@ == argument@,
            forall|j: int|
                0 <= j < i ==> !(#[trigger] chars@[j] == '*' || chars@[j] == '?' || chars@[j]
                    == '['),
        decreases chars.len() - i,
    {
        let c = chars[i];
        if c == '*' || c == '?' || c == '[' {
            return true;
        }
        i = i + 1;
    }
    false
}

/// Whether the arguments ask for standard input: a lone `-`.
pub fn reads_standard_input(arguments: &Vec<String>) -> (res: bool)
    ensures
        res == (arguments@.len() == 1 && arguments@[0]@ == seq!['-']),
{
    if arguments.len() != 1 {
        return false;
    }
    let chars = chars_of(arguments[0].as_str());
    let res = chars.len() == 1 && chars[0] == '-';
    proof {
        if chars.len() == 1 && chars[0] == '-' {
            assert(chars@ =~= seq!['-']);
        }
    }
    res
}

/// Whether two byte strings are equal.
fn same_bytes(a: &Vec<u8>, b: &Vec<u8>) -> (same: bool)
    ensures
        same == (a@ == b@),
{
    if a.len() != b.len() {
        return false;
    }
    let mut i: usize = 0;
    while i < a.len()
        invariant
            a@.len() == b@.len(),
            i <= a@.len(),
            forall|j: int| 0 <= j < i ==> a@[j] == b@[j],
        decreases a@.len() - i,
    {
        if a[i] != b[i] {
            return false;
        }
        i += 1;
    }
    assert(a@ =~= b@);
    true
}

/// Admits a file under `key` (its canonical path, as bytes) unless one with
/// the same key was admitted before: whether it is new, and `seen` with its
/// key added where it is.
pub fn admit_path(seen: &mut Vec<Vec<u8>>, key: Vec<u8>) -> (new: bool)
    ensures
        new == forall|i: int| 0 <= i < old(seen)@.len() ==> old(seen)@[i]@ != key@,
        final(seen)@ == (if new { old(seen)@.push(key) } else { old(seen)@ }),
{
    let mut i: usize = 0;
    while i < seen.len()
        invariant
            i <= seen@.len(),
            seen@ == old(seen)@,
            forall|j: int| 0 <= j < i ==> (#[trigger] seen@[j])@ != key@,
        decreases seen@.len() - i,
    {
        if same_bytes(&seen[i], &key) {
            return false;
        }
        i += 1;
    }
    seen.push(key);
    true
}

/// Whether an input is reported as an error: it resolved to no file, be it
/// a path, a directory or a glob pattern.
pub fn input_fails(matched: usize) -> (f: bool)
    ensures
        f == (matched == 0),
{
    matched == 0
}

} // verus!
