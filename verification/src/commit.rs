//! What a session commit does with each file of its working world.

use vstd::prelude::*;
use crate::linear::LinearVersion;
use crate::region::{parse_region_name, parse_region_name_spec};
use crate::text::{append, append_str, chars_of, ends_with, ends_with_str, string_of};

verus! {

/// How a working file goes back to the source world.
#[derive(Clone, Copy, Debug, PartialEq, Eq, Structural)]
pub enum CommitKind {
    /// Not a region file (or a Linear marker): left alone.
    Skip,
    /// Copied as it is.
    Copy,
    /// An Anvil region that goes back as Linear when its marker says so
    /// (else it is copied).
    AnvilOf(i32, i32),
}

/// The kind of a working file by its name.
pub open spec fn commit_kind_of(name: Seq<char>) -> CommitKind {
    if ends_with(name, ".linear.source"@) {
        CommitKind::Skip
    } else if !(ends_with(name, ".mca"@) || ends_with(name, ".linear"@)) {
        CommitKind::Skip
    } else if ends_with(name, ".mca"@) {
        match parse_region_name_spec(name) {
            Ok((rx, rz)) => CommitKind::AnvilOf(rx, rz),
            Err(_) => CommitKind::Skip,
        }
    } else {
        CommitKind::Copy
    }
}

/// Classify a working file for a commit.
pub fn commit_kind(name: &str) -> (r: CommitKind)
    ensures
        r == commit_kind_of(name@),
{
    let c = chars_of(name);
    if ends_with_str(&c, ".linear.source") {
        CommitKind::Skip
    } else if !(ends_with_str(&c, ".mca") || ends_with_str(&c, ".linear")) {
        CommitKind::Skip
    } else if ends_with_str(&c, ".mca") {
        match parse_region_name(name) {
            Ok((rx, rz)) => CommitKind::AnvilOf(rx, rz),
            Err(_) => CommitKind::Skip,
        }
    } else {
        CommitKind::Copy
    }
}

/// The report line for a committed file: `label/name -> destination`, with
/// the Linear version when it goes back as Linear.
pub open spec fn commit_line(label: Seq<char>, name: Seq<char>, dest: Seq<char>, linear: Option<LinearVersion>) -> Seq<char> {
    label + "/"@ + name + " -> "@ + dest + match linear {
        Some(LinearVersion::V1) => " (linear V1)"@,
        Some(LinearVersion::V2) => " (linear V2)"@,
        None => ""@,
    }
}

pub fn commit_report_line(label: &str, name: &str, dest: &str, linear: Option<LinearVersion>) -> (r: String)
    ensures
        r@ == commit_line(label@, name@, dest@, linear),
{
    let mut m = chars_of(label);
    append_str(&mut m, "/");
    append_str(&mut m, name);
    append_str(&mut m, " -> ");
    append_str(&mut m, dest);
    match linear {
        Some(LinearVersion::V1) => append_str(&mut m, " (linear V1)"),
        Some(LinearVersion::V2) => append_str(&mut m, " (linear V2)"),
        None => append_str(&mut m, ""),
    }
    string_of(&m)
}

} // verus!
