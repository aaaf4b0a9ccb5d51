//! The presentation boundary: the scanner's result becomes one row per
//! discovered path, or a single placeholder row when nothing matched.

use vstd::prelude::*;
use vstd::string::StringExecFns;

use crate::paths::clone_strings;

verus! {

/// The placeholder row shown when no file matched.
pub open spec fn no_files_row() -> Seq<char> {
    "No CBR Files found"@
}

/// The rows handed to the window: one per discovered path, in order, or
/// exactly one placeholder row when the list is empty.
pub fn row_labels(paths: &Vec<String>) -> (r: Vec<String>)
    ensures
        paths@.len() == 0 ==> r.deep_view() == seq![no_files_row()],
        paths@.len() > 0 ==> r@ == paths@,
{
    if paths.len() == 0 {
        let mut r: Vec<String> = Vec::new();
        r.push(String::from_str("No CBR Files found"));
        proof {
            assert(r.deep_view() =~= seq![no_files_row()]);
        }
        r
    } else {
        clone_strings(paths)
    }
}

} // verus!
