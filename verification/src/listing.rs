//! Listing a directory: the tickets that can be read, in the order of
//! their numbers, and the names of the files that cannot.

use vstd::prelude::*;
use vstd::string::*;
use crate::ident::{parse_id, ticket_id};
use crate::record::{parse_text, RecordView, TicketRecord};
use crate::store::{FileView, ProjectDir};
use crate::text::{first_match, lemma_first_match, lemma_first_match_is, strings_view};

verus! {

/// A listed ticket as mathematics: the number its file is named by, and
/// what the file holds.
pub type EntryView = (u32, RecordView);

/// Whether a file shows in a listing: its name is a ticket number and its
/// contents are a well-formed ticket.
pub open spec fn listable(file: FileView) -> bool {
    ticket_id(file.0) is Some && parse_text(file.1) is Some
}

/// The listing entry of a file that shows in a listing.
pub open spec fn entry_of(file: FileView) -> EntryView {
    (ticket_id(file.0)->0, parse_text(file.1)->0)
}

/// The test "does this entry have a number above `id`".
pub open spec fn later_test(id: u32) -> spec_fn(EntryView) -> bool {
    |entry: EntryView| entry.0 > id
}

/// An entry put into entries that are in the order of their numbers:
/// before the first entry with a larger number.
pub open spec fn insert_by_id(entries: Seq<EntryView>, entry: EntryView) -> Seq<EntryView> {
    entries.insert(first_match(entries, later_test(entry.0)), entry)
}

/// The listing of a directory: the entries of the files that show, in the
/// order of their numbers; entries with the same number in the order of
/// their files.
pub open spec fn listed(files: Seq<FileView>) -> Seq<EntryView>
    decreases files.len(),
{
    if files.len() == 0 {
        Seq::empty()
    } else if listable(files.last()) {
        insert_by_id(listed(files.drop_last()), entry_of(files.last()))
    } else {
        listed(files.drop_last())
    }
}

/// The names of the files that do not show in a listing, in the order of
/// the files.
pub open spec fn skipped(files: Seq<FileView>) -> Seq<Seq<char>>
    decreases files.len(),
{
    if files.len() == 0 {
        Seq::empty()
    } else if listable(files.last()) {
        skipped(files.drop_last())
    } else {
        skipped(files.drop_last()).push(files.last().0)
    }
}

/// Entries in the order of their numbers, smallest first.
pub open spec fn sorted_by_id(entries: Seq<EntryView>) -> bool {
    forall|i: int, j: int|
        0 <= i <= j < entries.len() ==> (#[trigger] entries[i]).0 <= (#[trigger] entries[j]).0
}

/// Putting an entry in keeps the order, adds that entry and loses none.
pub proof fn lemma_insert_by_id(entries: Seq<EntryView>, entry: EntryView)
    requires
        sorted_by_id(entries),
    ensures
        sorted_by_id(insert_by_id(entries, entry)),
        insert_by_id(entries, entry).len() == entries.len() + 1,
        insert_by_id(entries, entry).contains(entry),
        forall|e: EntryView|
            insert_by_id(entries, entry).contains(e) <==> (e == entry || entries.contains(e)),
{
    let test = later_test(entry.0);
    let at = first_match(entries, test);
    lemma_first_match(entries, test);
    let out = insert_by_id(entries, entry);
    assert forall|i: int, j: int| 0 <= i <= j < out.len() implies (#[trigger] out[i]).0 <= (
    #[trigger] out[j]).0 by {
        let a = if i < at {
            entries[i]
        } else if i == at {
            entry
        } else {
            entries[i - 1]
        };
        let b = if j < at {
            entries[j]
        } else if j == at {
            entry
        } else {
            entries[j - 1]
        };
        assert(out[i] == a && out[j] == b);
        if i < at {
            assert(!test(entries[i]));
        }
        if j > at {
            assert(test(entries[at]));
            assert(entries[at].0 <= entries[j - 1].0);
        }
    }
    assert(out[at] == entry);
    assert forall|e: EntryView| out.contains(e) <==> (e == entry || entries.contains(e)) by {
        if out.contains(e) {
            let k = choose|k: int| 0 <= k < out.len() && out[k] == e;
            if k < at {
                assert(entries[k] == e);
            } else if k > at {
                assert(entries[k - 1] == e);
            }
        }
        if entries.contains(e) {
            let k = choose|k: int| 0 <= k < entries.len() && entries[k] == e;
            if k < at {
                assert(out[k] == e);
            } else {
                assert(out[k + 1] == e);
            }
        }
    }
}

/// A listing is in the order of the ticket numbers, holds the entry of
/// every file that shows and no other entry, and every file either shows
/// or is named among the skipped.
pub proof fn lemma_listed(files: Seq<FileView>)
    ensures
        sorted_by_id(listed(files)),
        listed(files).len() + skipped(files).len() == files.len(),
        forall|i: int|
            0 <= i < files.len() && listable(#[trigger] files[i]) ==> listed(files).contains(
                entry_of(files[i]),
            ),
        forall|i: int|
            0 <= i < files.len() && !listable(#[trigger] files[i]) ==> skipped(files).contains(
                files[i].0,
            ),
        forall|e: EntryView|
            listed(files).contains(e) ==> exists|i: int|
                0 <= i < files.len() && listable(files[i]) && entry_of(files[i]) == e,
    decreases files.len(),
{
    if files.len() > 0 {
        let front = files.drop_last();
        let last = files.last();
        lemma_listed(front);
        if listable(last) {
            lemma_insert_by_id(listed(front), entry_of(last));
        }
        assert forall|i: int| 0 <= i < files.len() && listable(
            #[trigger] files[i],
        ) implies listed(files).contains(entry_of(files[i])) by {
            if i < front.len() {
                assert(front[i] == files[i]);
                assert(listed(front).contains(entry_of(files[i])));
            }
        }
        assert forall|i: int| 0 <= i < files.len() && !listable(
            #[trigger] files[i],
        ) implies skipped(files).contains(files[i].0) by {
            if i < front.len() {
                assert(front[i] == files[i]);
                let k = choose|k: int|
                    0 <= k < skipped(front).len() && skipped(front)[k] == files[i].0;
                assert(skipped(files)[k] == files[i].0);
            } else {
                assert(skipped(files)[skipped(files).len() - 1] == files[i].0);
            }
        }
        assert forall|e: EntryView| listed(files).contains(e) implies exists|i: int|
            0 <= i < files.len() && listable(files[i]) && entry_of(files[i]) == e by {
            if listable(last) && e == entry_of(last) {
                assert(files[files.len() - 1] == last);
            } else {
                assert(listed(front).contains(e));
                let i = choose|i: int|
                    0 <= i < front.len() && listable(front[i]) && entry_of(front[i]) == e;
                assert(files[i] == front[i]);
            }
        }
    }
}

/// A ticket in a listing: the number its file is named by, and the ticket.
#[derive(Clone, Debug, PartialEq, Eq)]
pub struct ListedTicket {
    pub id: u32,
    pub record: TicketRecord,
}

impl View for ListedTicket {
    type V = EntryView;

    open spec fn view(&self) -> EntryView {
        (self.id, self.record@)
    }
}

/// The entries of a vector of listed tickets.
pub open spec fn entries_view(tickets: Seq<ListedTicket>) -> Seq<EntryView> {
    Seq::new(tickets.len(), |i: int| tickets[i]@)
}

/// What a listing gives: the tickets in the order of their numbers, and
/// the names of the files that were passed over.
#[derive(Clone, Debug, PartialEq, Eq)]
pub struct Listing {
    pub tickets: Vec<ListedTicket>,
    pub skipped: Vec<String>,
}

/// The tickets of a directory in the order of their numbers. A file whose
/// name is no ticket number, or whose contents are malformed, is passed
/// over and named in `skipped`; it does not keep the others from showing.
pub fn list(dir: &ProjectDir) -> (listing: Listing)
    ensures
        entries_view(listing.tickets@) == listed(dir@),
        strings_view(listing.skipped@) == skipped(dir@),
        sorted_by_id(entries_view(listing.tickets@)),
{
    let mut tickets: Vec<ListedTicket> = Vec::new();
    let mut passed: Vec<String> = Vec::new();
    let ghost files = dir@;
    let mut i: usize = 0;
    assert(files.take(0) =~= Seq::<FileView>::empty());
    assert(entries_view(tickets@) =~= Seq::<EntryView>::empty());
    assert(strings_view(passed@) =~= Seq::<Seq<char>>::empty());
    while i < dir.len()
        invariant
            i <= files.len(),
            files == dir@,
            entries_view(tickets@) == listed(files.take(i as int)),
            strings_view(passed@) == skipped(files.take(i as int)),
        decreases files.len() - i,
    {
        let name = dir.name_at(i);
        let contents = dir.contents_at(i);
        proof {
            assert(files.take(i + 1).drop_last() =~= files.take(i as int));
            assert(files.take(i + 1).last() == files[i as int]);
        }
        let ghost before = entries_view(tickets@);
        let ghost before_passed = strings_view(passed@);
        let id = parse_id(name.as_str());
        let parsed = TicketRecord::parse(contents.as_str());
        match (id, parsed) {
            (Some(id), Ok(record)) => {
                let ghost test = later_test(id);
                let mut at: usize = 0;
                while at < tickets.len() && tickets[at].id <= id
                    invariant
                        at <= tickets.len(),
                        test == later_test(id),
                        before == entries_view(tickets@),
                        forall|j: int| 0 <= j < at ==> !test(before[j]),
                    decreases tickets.len() - at,
                {
                    at += 1;
                }
                proof {
                    if at < tickets.len() {
                        assert(test(before[at as int]));
                    }
                    lemma_first_match_is(before, test, at as int);
                }
                let ghost entry = (id, record@);
                tickets.insert(at, ListedTicket { id, record });
                assert(entries_view(tickets@) =~= before.insert(at as int, entry));
            },
            _ => {
                passed.push(name);
                assert(strings_view(passed@) =~= before_passed.push(files[i as int].0));
            },
        }
        i += 1;
    }
    proof {
        assert(files.take(i as int) =~= files);
        lemma_listed(files);
    }
    Listing { tickets, skipped: passed }
}

} // verus!
