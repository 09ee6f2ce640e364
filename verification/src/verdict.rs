//! The state of a required directory of a problem.

use crate::snapshot::{find_child, has_child, Entry, EntryKind};
use vstd::prelude::*;

verus! {

/// A file of this name marks its directory as empty, whatever else it holds.
pub const MISSING_MARK: &'static str = "missing.md";

/// A file of this name marks its directory as incomplete.
pub const BROKEN_MARK: &'static str = "broken.md";

/// What the verdict on a directory depends on.
#[derive(Clone, Copy, Debug, PartialEq, Eq, Structural)]
pub struct DirFacts {
    /// How many entries the directory has.
    pub entries: usize,
    /// Whether it holds a file named `missing.md`.
    pub has_missing: bool,
    /// Whether it holds a file named `broken.md`.
    pub has_broken: bool,
}

/// The verdict on a required directory.
#[derive(Clone, Copy, Debug, PartialEq, Eq, Structural)]
pub enum Verdict {
    /// Nothing in it, or marked as missing.
    Empty,
    /// Something in it, and marked as broken.
    Incomplete,
    /// Something in it, and no mark.
    Complete,
}

/// Why no verdict can be given.
#[derive(Clone, Copy, Debug, PartialEq, Eq, Structural)]
pub enum VerdictError {
    /// The directory counts as empty and is marked as broken as well.
    EmptyAndBroken,
}

/// A directory counts as empty when it has no entry or is marked as missing.
pub open spec fn counts_as_empty(facts: DirFacts) -> bool {
    facts.entries == 0 || facts.has_missing
}

/// The verdict that follows from the facts.
pub open spec fn spec_classify(facts: DirFacts) -> Result<Verdict, VerdictError> {
    if counts_as_empty(facts) {
        if facts.has_broken {
            Err(VerdictError::EmptyAndBroken)
        } else {
            Ok(Verdict::Empty)
        }
    } else if facts.has_broken {
        Ok(Verdict::Incomplete)
    } else {
        Ok(Verdict::Complete)
    }
}

/// The facts about a directory of the snapshot.
pub open spec fn spec_facts(dir: Entry) -> DirFacts {
    DirFacts {
        entries: dir.children.len(),
        has_missing: has_child(dir, MISSING_MARK@, EntryKind::File),
        has_broken: has_child(dir, BROKEN_MARK@, EntryKind::File),
    }
}

/// How a verdict is written in a report.
pub open spec fn verdict_text(v: Verdict) -> Seq<char> {
    match v {
        Verdict::Empty => "Gol"@,
        Verdict::Incomplete => "Incomplet"@,
        Verdict::Complete => "Ok"@,
    }
}

impl Verdict {
    /// The word that stands for this verdict in a report.
    pub fn label(self) -> (r: &'static str)
        ensures
            r@ == verdict_text(self),
    {
        match self {
            Verdict::Empty => "Gol",
            Verdict::Incomplete => "Incomplet",
            Verdict::Complete => "Ok",
        }
    }
}

/// The verdict on a directory with these facts. A directory that counts as
/// empty and is marked as broken gets none.
pub fn classify(facts: DirFacts) -> (r: Result<Verdict, VerdictError>)
    ensures
        r == spec_classify(facts),
{
    let empty = facts.entries == 0 || facts.has_missing;
    match (empty, facts.has_broken) {
        (true, false) => Ok(Verdict::Empty),
        (true, true) => Err(VerdictError::EmptyAndBroken),
        (false, true) => Ok(Verdict::Incomplete),
        (false, false) => Ok(Verdict::Complete),
    }
}

/// Collects the facts about a directory.
pub fn facts_of(dir: &Entry) -> (r: DirFacts)
    ensures
        r == spec_facts(*dir),
{
    DirFacts {
        entries: dir.children.len(),
        has_missing: find_child(dir, MISSING_MARK, EntryKind::File).is_some(),
        has_broken: find_child(dir, BROKEN_MARK, EntryKind::File).is_some(),
    }
}

/// Whether a directory counts as empty.
pub fn is_dir_empty(dir: &Entry) -> (r: bool)
    ensures
        r == (dir.children@.len() == 0 || has_child(*dir, MISSING_MARK@, EntryKind::File)),
        r == counts_as_empty(spec_facts(*dir)),
{
    dir.children.len() == 0 || find_child(dir, MISSING_MARK, EntryKind::File).is_some()
}

/// Whether a directory is marked as broken.
pub fn is_dir_broken(dir: &Entry) -> (r: bool)
    ensures
        r == has_child(*dir, BROKEN_MARK@, EntryKind::File),
{
    find_child(dir, BROKEN_MARK, EntryKind::File).is_some()
}

/// The verdict on a directory of the snapshot.
pub fn get_verdict(dir: &Entry) -> (r: Result<Verdict, VerdictError>)
    ensures
        r == spec_classify(spec_facts(*dir)),
{
    match (is_dir_empty(dir), is_dir_broken(dir)) {
        (true, false) => Ok(Verdict::Empty),
        (true, true) => Err(VerdictError::EmptyAndBroken),
        (false, true) => Ok(Verdict::Incomplete),
        (false, false) => Ok(Verdict::Complete),
    }
}

} // verus!
