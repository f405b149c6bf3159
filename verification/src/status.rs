//! The four states a ticket can be in, and their names in a ticket file.

use vstd::prelude::*;
use vstd::string::*;
use crate::text::str_eq;

verus! {

/// A ticket's lifecycle label.
#[derive(Clone, Copy, Debug, PartialEq, Eq, Structural)]
pub enum Status {
    Open,
    InProgress,
    Closed,
    Complete,
}

impl Status {
    /// The name under which the status stands in a ticket's header.
    pub open spec fn name(self) -> Seq<char> {
        match self {
            Status::Open => "open"@,
            Status::InProgress => "in_progress"@,
            Status::Closed => "closed"@,
            Status::Complete => "complete"@,
        }
    }

    /// The status's name, as a string slice.
    pub fn as_str(self) -> (name: &'static str)
        ensures
            name@ == self.name(),
    {
        match self {
            Status::Open => "open",
            Status::InProgress => "in_progress",
            Status::Closed => "closed",
            Status::Complete => "complete",
        }
    }

    /// The status that `name` names, if it names one.
    pub fn from_name(name: &str) -> (status: Option<Status>)
        ensures
            match status {
                Some(s) => s.name() == name@,
                None => forall|s: Status| s.name() != name@,
            },
    {
        if str_eq(name, "open") {
            Some(Status::Open)
        } else if str_eq(name, "in_progress") {
            Some(Status::InProgress)
        } else if str_eq(name, "closed") {
            Some(Status::Closed)
        } else if str_eq(name, "complete") {
            Some(Status::Complete)
        } else {
            None
        }
    }
}

/// The four names differ from one another, and none holds a newline or a
/// colon.
pub proof fn lemma_status_names(s: Status, t: Status)
    ensures
        s.name() == t.name() ==> s == t,
        !s.name().contains('\n'),
        !s.name().contains(':'),
        s.name().len() > 0,
{
    reveal_strlit("open");
    reveal_strlit("in_progress");
    reveal_strlit("closed");
    reveal_strlit("complete");
    if s.name() == t.name() && s != t {
        assert(s.name().len() == t.name().len());
        assert(s.name()[0] == t.name()[0]);
    }
    if s.name().contains('\n') {
        let k = choose|k: int| 0 <= k < s.name().len() && s.name()[k] == '\n';
        assert(s.name()[k] == '\n');
    }
    if s.name().contains(':') {
        let k = choose|k: int| 0 <= k < s.name().len() && s.name()[k] == ':';
        assert(s.name()[k] == ':');
    }
}

} // verus!
