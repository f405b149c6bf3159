//! Setting the status of several tickets at once. Each ticket is tried on
//! its own: one that is missing or malformed is reported and does not keep
//! the others from being changed.

use vstd::prelude::*;
use vstd::string::*;
use crate::error::TicketError;
use crate::record::{key_status, lookup, parse_text};
use crate::rewrite::{
    lemma_rewrite_idempotent, lemma_rewrite_parses, rewrite_status, rewrite_text,
};
use crate::status::Status;
use crate::store::{
    contents_of, distinct_names, has_file, lemma_file_index, lemma_has_file, FileView, ProjectDir,
};
use crate::text::{str_eq, strings_view};

verus! {

/// The directory after the status of the named tickets was set: a file
/// whose name is among `ids` and whose text can take a new status holds the
/// rewritten text; every other file is as before.
pub open spec fn set_status_files(files: Seq<FileView>, ids: Seq<Seq<char>>, status: Status) -> Seq<
    FileView,
> {
    Seq::new(
        files.len(),
        |i: int|
            if ids.contains(files[i].0) && rewrite_text(files[i].1, status) is Some {
                (files[i].0, rewrite_text(files[i].1, status)->0)
            } else {
                files[i]
            },
    )
}

/// Whether the ticket called `id` exists and its text can take a new
/// status.
pub open spec fn can_update(files: Seq<FileView>, id: Seq<char>, status: Status) -> bool {
    match contents_of(files, id) {
        Some(text) => rewrite_text(text, status) is Some,
        None => false,
    }
}

/// The names of the tickets that were changed: each name of `ids` that can
/// be updated, once, in the order of `ids`.
pub open spec fn updated_ids(files: Seq<FileView>, ids: Seq<Seq<char>>, status: Status) -> Seq<
    Seq<char>,
>
    decreases ids.len(),
{
    if ids.len() == 0 {
        Seq::empty()
    } else {
        let front = updated_ids(files, ids.drop_last(), status);
        if !ids.drop_last().contains(ids.last()) && can_update(files, ids.last(), status) {
            front.push(ids.last())
        } else {
            front
        }
    }
}

/// The tickets that could not be changed: each name of `ids` that cannot be
/// updated, once, in the order of `ids`, with whether a file of that name
/// exists.
pub open spec fn failed_ids(files: Seq<FileView>, ids: Seq<Seq<char>>, status: Status) -> Seq<
    (Seq<char>, bool),
>
    decreases ids.len(),
{
    if ids.len() == 0 {
        Seq::empty()
    } else {
        let front = failed_ids(files, ids.drop_last(), status);
        if !ids.drop_last().contains(ids.last()) && !can_update(files, ids.last(), status) {
            front.push((ids.last(), has_file(files, ids.last())))
        } else {
            front
        }
    }
}

/// Setting the same status a second time leaves every file as the first
/// time left it.
pub proof fn lemma_set_status_idempotent(
    files: Seq<FileView>,
    ids: Seq<Seq<char>>,
    status: Status,
)
    ensures
        set_status_files(set_status_files(files, ids, status), ids, status) == set_status_files(
            files,
            ids,
            status,
        ),
{
    let once = set_status_files(files, ids, status);
    let twice = set_status_files(once, ids, status);
    assert forall|i: int| 0 <= i < files.len() implies twice[i] == once[i] by {
        if ids.contains(files[i].0) && rewrite_text(files[i].1, status) is Some {
            lemma_rewrite_idempotent(files[i].1, status);
        }
    }
    assert(twice =~= once);
}

/// Setting a status changes no file name, adds and removes no file, and
/// leaves alone every file that is not named.
pub proof fn lemma_set_status_keeps(files: Seq<FileView>, ids: Seq<Seq<char>>, status: Status)
    ensures
        set_status_files(files, ids, status).len() == files.len(),
        forall|i: int|
            0 <= i < files.len() ==> (#[trigger] set_status_files(files, ids, status)[i]).0
                == files[i].0,
        forall|i: int|
            0 <= i < files.len() && !ids.contains(files[i].0) ==> #[trigger] set_status_files(
                files,
                ids,
                status,
            )[i] == files[i],
        distinct_names(files) ==> distinct_names(set_status_files(files, ids, status)),
{
    let after = set_status_files(files, ids, status);
    if distinct_names(files) {
        assert forall|i: int, j: int| 0 <= i < j < after.len() implies (#[trigger] after[i]).0
            != (#[trigger] after[j]).0 by {
            assert(files[i].0 != files[j].0);
        }
    }
}

/// A ticket that was changed reads back with the new status, and with
/// its body and every other header field as before.
pub proof fn lemma_set_status_effect(
    files: Seq<FileView>,
    ids: Seq<Seq<char>>,
    status: Status,
    i: int,
)
    requires
        0 <= i < files.len(),
        ids.contains(files[i].0),
        rewrite_text(files[i].1, status) is Some,
    ensures
        parse_text(files[i].1) is Some,
        parse_text(set_status_files(files, ids, status)[i].1) is Some,
        parse_text(set_status_files(files, ids, status)[i].1)->0.status() == Some(status.name()),
        parse_text(set_status_files(files, ids, status)[i].1)->0.body == parse_text(
            files[i].1,
        )->0.body,
        forall|key: Seq<char>|
            key != key_status() ==> lookup(
                #[trigger] parse_text(set_status_files(files, ids, status)[i].1)->0.fields,
                key,
            ) == lookup(parse_text(files[i].1)->0.fields, key),
{
    lemma_rewrite_parses(files[i].1, status);
}

/// A ticket that could not be changed, and why.
#[derive(Clone, Debug, PartialEq, Eq)]
pub struct Failure {
    /// The name the ticket was asked for by.
    pub id: String,
    /// `TicketNotFound` where no such file exists, `MalformedHeader` where
    /// its text cannot take a new status.
    pub error: TicketError,
}

/// Whether a failure is the one for that name, and says rightly whether
/// the file exists.
pub open spec fn failure_is(failure: Failure, expected: (Seq<char>, bool)) -> bool {
    &&& failure.id@ == expected.0
    &&& if expected.1 {
        failure.error == TicketError::MalformedHeader
    } else {
        failure.error matches TicketError::TicketNotFound(name) && name@ == expected.0
    }
}

/// What setting a status did: the tickets that were changed and those
/// that could not be.
#[derive(Clone, Debug, PartialEq, Eq)]
pub struct StatusReport {
    pub updated: Vec<String>,
    pub failed: Vec<Failure>,
}

impl StatusReport {
    /// How many tickets were changed.
    pub fn count(&self) -> (n: usize)
        ensures
            n == self.updated@.len(),
    {
        self.updated.len()
    }

    /// The exit code for the process: 0 where a ticket was changed or
    /// nothing failed, 1 where tickets failed and none was changed.
    pub fn exit_code(&self) -> (code: u8)
        ensures
            code == (if self.updated@.len() == 0 && self.failed@.len() > 0 {
                1u8
            } else {
                0u8
            }),
    {
        if self.updated.len() == 0 && self.failed.len() > 0 {
            1
        } else {
            0
        }
    }
}

/// Whether `ids[k]` stands among the names before it.
fn seen_before(ids: &Vec<String>, k: usize) -> (seen: bool)
    requires
        k < ids.len(),
    ensures
        seen == strings_view(ids@).take(k as int).contains(ids[k as int]@),
{
    let ghost front = strings_view(ids@).take(k as int);
    let mut j: usize = 0;
    while j < k
        invariant
            j <= k < ids.len(),
            front == strings_view(ids@).take(k as int),
            forall|i: int| 0 <= i < j ==> front[i] != ids[k as int]@,
        decreases k - j,
    {
        if str_eq(ids[j].as_str(), ids[k].as_str()) {
            assert(front[j as int] == ids[k as int]@);
            return true;
        }
        j += 1;
    }
    false
}

/// Sets the status of each named ticket, changing only the `status` lines
/// of its header. A name that is given twice counts once. A ticket that
/// does not exist, or whose text is malformed or has no `status` line, is
/// reported in `failed`; the others are changed all the same.
pub fn set_status(dir: &mut ProjectDir, ids: &Vec<String>, status: Status) -> (report:
    StatusReport)
    ensures
        final(dir)@ == set_status_files(old(dir)@, strings_view(ids@), status),
        strings_view(report.updated@) == updated_ids(old(dir)@, strings_view(ids@), status),
        report.failed@.len() == failed_ids(old(dir)@, strings_view(ids@), status).len(),
        forall|k: int|
            0 <= k < report.failed@.len() ==> failure_is(
                #[trigger] report.failed@[k],
                failed_ids(old(dir)@, strings_view(ids@), status)[k],
            ),
{
    let ghost files = dir@;
    let ghost names = strings_view(ids@);
    let mut updated: Vec<String> = Vec::new();
    let mut failed: Vec<Failure> = Vec::new();
    let mut k: usize = 0;
    proof {
        use_type_invariant(&*dir);
        dir.lemma_names_are_distinct();
        assert(names.take(0) =~= Seq::<Seq<char>>::empty());
        assert(dir@ =~= set_status_files(files, names.take(0), status));
        assert(strings_view(updated@) =~= Seq::<Seq<char>>::empty());
    }
    while k < ids.len()
        invariant
            k <= ids.len(),
            names == strings_view(ids@),
            distinct_names(files),
            dir@ == set_status_files(files, names.take(k as int), status),
            strings_view(updated@) == updated_ids(files, names.take(k as int), status),
            failed@.len() == failed_ids(files, names.take(k as int), status).len(),
            forall|j: int|
                0 <= j < failed@.len() ==> failure_is(
                    #[trigger] failed@[j],
                    failed_ids(files, names.take(k as int), status)[j],
                ),
        decreases ids.len() - k,
    {
        let ghost done = names.take(k as int);
        let ghost next = names.take(k + 1);
        let ghost id = names[k as int];
        let ghost before = dir@;
        let ghost before_updated = strings_view(updated@);
        let ghost before_failed = failed@;
        proof {
            assert(next.drop_last() =~= done);
            assert(next.last() == id);
            assert(next =~= done.push(id));
            assert forall|n: Seq<char>| next.contains(n) <==> (done.contains(n) || n == id) by {
                if next.contains(n) {
                    let j = choose|j: int| 0 <= j < next.len() && next[j] == n;
                    if j < done.len() {
                        assert(done[j] == n);
                    }
                }
                if done.contains(n) {
                    let j = choose|j: int| 0 <= j < done.len() && done[j] == n;
                    assert(next[j] == n);
                }
                assert(next[k as int] == id);
            }
            lemma_has_file(files, id);
            lemma_has_file(before, id);
        }
        if seen_before(ids, k) {
            assert(set_status_files(files, next, status) =~= before);
        } else {
            match dir.find(ids[k].as_str()) {
                None => {
                    proof {
                        assert forall|i: int| 0 <= i < files.len() implies files[i].0 != id by {
                            assert(before[i].0 == files[i].0);
                        }
                        assert(!has_file(files, id));
                        assert(set_status_files(files, next, status) =~= before);
                    }
                    failed.push(
                        Failure {
                            id: ids[k].clone(),
                            error: TicketError::TicketNotFound(ids[k].clone()),
                        },
                    );
                },
                Some(at) => {
                    proof {
                        assert(before[at as int].0 == files[at as int].0);
                        lemma_file_index(files, at as int);
                        assert(before[at as int] == files[at as int]);
                        assert forall|i: int| 0 <= i < files.len() && i != at implies files[i].0
                            != id by {
                            if i < at {
                                assert(files[i].0 != files[at as int].0);
                            } else {
                                assert(files[at as int].0 != files[i].0);
                            }
                        }
                    }
                    let contents = dir.contents_at(at);
                    match rewrite_status(contents.as_str(), status) {
                        Ok(text) => {
                            dir.replace_contents(at, text);
                            updated.push(ids[k].clone());
                            proof {
                                assert(dir@ =~= set_status_files(files, next, status));
                                assert(strings_view(updated@) =~= before_updated.push(id));
                            }
                        },
                        Err(_) => {
                            proof {
                                assert(set_status_files(files, next, status) =~= before);
                            }
                            failed.push(
                                Failure {
                                    id: ids[k].clone(),
                                    error: TicketError::MalformedHeader,
                                },
                            );
                        },
                    }
                },
            }
        }
        proof {
            let expected = failed_ids(files, next, status);
            assert forall|j: int| 0 <= j < failed@.len() implies failure_is(
                #[trigger] failed@[j],
                expected[j],
            ) by {
                if j < before_failed.len() {
                    assert(failed@[j] == before_failed[j]);
                    assert(expected[j] == failed_ids(files, done, status)[j]);
                }
            }
        }
        k += 1;
    }
    assert(names.take(k as int) =~= names);
    StatusReport { updated, failed }
}

} // verus!
