//! Which tickets a listing shows: status selectors, read from command-line
//! flags, and the test of a ticket against them.

use vstd::prelude::*;
use vstd::string::*;
use crate::error::TicketError;
use crate::record::{parse_text, RecordView, TicketRecord};
use crate::status::Status;
use crate::text::{chars_eq, str_eq, strings_view, to_chars, trim, trim_span};

verus! {

/// The status name that a flag selects: `--open`, `--closed` and
/// `--complete` select the status they name, `--current` and
/// `--in_progress` select `in_progress`. Anything else selects nothing.
pub open spec fn flag_selector(flag: Seq<char>) -> Option<Seq<char>> {
    if flag == "--open"@ {
        Some(Status::Open.name())
    } else if flag == "--closed"@ {
        Some(Status::Closed.name())
    } else if flag == "--complete"@ {
        Some(Status::Complete.name())
    } else if flag == "--current"@ || flag == "--in_progress"@ {
        Some(Status::InProgress.name())
    } else {
        None
    }
}

/// The selectors that arguments give: for each argument that, without the
/// white space around it, is a known flag, the status name it selects.
/// Arguments that are no known flag are passed over.
pub open spec fn selectors_of(args: Seq<Seq<char>>) -> Seq<Seq<char>>
    decreases args.len(),
{
    if args.len() == 0 {
        Seq::empty()
    } else {
        let front = selectors_of(args.drop_last());
        match flag_selector(trim(args.last())) {
            Some(name) => front.push(name),
            None => front,
        }
    }
}

/// Whether a ticket passes the selectors: all tickets pass where there is
/// no selector; otherwise those whose status is one of the selectors.
pub open spec fn matches_selectors(record: RecordView, selectors: Seq<Seq<char>>) -> bool {
    selectors.len() == 0 || match record.status() {
        Some(status) => selectors.contains(status),
        None => false,
    }
}

/// The status that a flag selects.
fn selector_of_flag(text: &Vec<char>, start: usize, end: usize) -> (status: Option<Status>)
    requires
        start <= end <= text.len(),
    ensures
        match status {
            Some(s) => flag_selector(text@.subrange(start as int, end as int)) == Some(s.name()),
            None => flag_selector(text@.subrange(start as int, end as int)) is None,
        },
{
    if chars_eq(text, start, end, &to_chars("--open")) {
        Some(Status::Open)
    } else if chars_eq(text, start, end, &to_chars("--closed")) {
        Some(Status::Closed)
    } else if chars_eq(text, start, end, &to_chars("--complete")) {
        Some(Status::Complete)
    } else if chars_eq(text, start, end, &to_chars("--current")) || chars_eq(
        text,
        start,
        end,
        &to_chars("--in_progress"),
    ) {
        Some(Status::InProgress)
    } else {
        None
    }
}

/// The status selectors among the arguments. Never fails: an argument that
/// is no known flag is passed over.
pub fn parse_args(args: &Vec<String>) -> (result: Result<Vec<String>, TicketError>)
    ensures
        result matches Ok(selectors) && strings_view(selectors@) == selectors_of(
            strings_view(args@),
        ),
{
    let ghost all = strings_view(args@);
    let mut selectors: Vec<String> = Vec::new();
    let mut i: usize = 0;
    assert(all.take(0) =~= Seq::<Seq<char>>::empty());
    while i < args.len()
        invariant
            i <= args.len(),
            all == strings_view(args@),
            strings_view(selectors@) == selectors_of(all.take(i as int)),
        decreases args.len() - i,
    {
        let text = to_chars(args[i].as_str());
        let span = trim_span(&text);
        proof {
            assert(all.take(i + 1).drop_last() =~= all.take(i as int));
            assert(all.take(i + 1).last() == args[i as int]@);
        }
        let ghost before = strings_view(selectors@);
        match selector_of_flag(&text, span.start, span.end) {
            Some(status) => {
                selectors.push(String::from_str(status.as_str()));
                assert(strings_view(selectors@) =~= before.push(status.name()));
            },
            None => {},
        }
        i += 1;
    }
    assert(all.take(i as int) =~= all);
    Ok(selectors)
}

/// Status selectors for a listing.
#[derive(Clone, Debug, PartialEq, Eq)]
pub struct QueryFilter {
    pub selectors: Vec<String>,
}

impl View for QueryFilter {
    type V = Seq<Seq<char>>;

    open spec fn view(&self) -> Seq<Seq<char>> {
        strings_view(self.selectors@)
    }
}

impl QueryFilter {
    /// A filter with those selectors.
    pub fn new(selectors: Vec<String>) -> (filter: QueryFilter)
        ensures
            filter@ == strings_view(selectors@),
    {
        QueryFilter { selectors }
    }

    /// Whether the ticket passes the filter.
    pub fn matches(&self, record: &TicketRecord) -> (yes: bool)
        ensures
            yes == matches_selectors(record@, self@),
    {
        if self.selectors.len() == 0 {
            return true;
        }
        let status = match record.status() {
            Some(status) => status,
            None => {
                return false;
            },
        };
        let ghost all = self@;
        let mut i: usize = 0;
        while i < self.selectors.len()
            invariant
                i <= self.selectors.len(),
                all == self@,
                all.len() > 0,
                record@.status() == Some(status@),
                forall|j: int| 0 <= j < i ==> all[j] != status@,
            decreases self.selectors.len() - i,
        {
            if str_eq(self.selectors[i].as_str(), status.as_str()) {
                assert(all[i as int] == status@);
                return true;
            }
            i += 1;
        }
        false
    }
}

/// Whether a ticket's text is well-formed and passes the selectors.
pub fn search_file(contents: &str, parsed_args: &Vec<String>) -> (yes: bool)
    ensures
        yes == match parse_text(contents@) {
            Some(record) => matches_selectors(record, strings_view(parsed_args@)),
            None => false,
        },
{
    match TicketRecord::parse(contents) {
        Ok(record) => {
            let filter = QueryFilter { selectors: parsed_args.clone() };
            assert(filter@ =~= strings_view(parsed_args@));
            filter.matches(&record)
        },
        Err(_) => false,
    }
}

/// Without selectors every ticket passes; with the one selector `closed`
/// exactly the tickets pass whose status is `closed`.
pub proof fn lemma_filter(record: RecordView)
    ensures
        matches_selectors(record, Seq::empty()),
        matches_selectors(record, seq!["closed"@]) <==> record.status() == Some("closed"@),
{
    let one = seq!["closed"@];
    if record.status() == Some("closed"@) {
        assert(one[0] == "closed"@);
    }
}

/// With selectors, a ticket passes exactly where its status is one of
/// them.
pub proof fn lemma_filter_exact(record: RecordView, selectors: Seq<Seq<char>>)
    requires
        selectors.len() > 0,
    ensures
        matches_selectors(record, selectors) <==> exists|i: int|
            0 <= i < selectors.len() && record.status() == Some(selectors[i]),
{
    if matches_selectors(record, selectors) {
        let status = record.status()->0;
        let i = choose|i: int| 0 <= i < selectors.len() && selectors[i] == status;
        assert(record.status() == Some(selectors[i]));
    }
}

} // verus!
