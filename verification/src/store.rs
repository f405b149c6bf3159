//! A project's ticket directory as a value: the files it holds, by name,
//! and the operations on them. Reading the directory from disk and writing
//! the changed files back is left to the caller.

use vstd::prelude::*;
use vstd::string::*;
use crate::error::TicketError;
use crate::ident::{decimal_text, id_text, lemma_id_of_decimal_text, parse_id, ticket_id};
use crate::record::{fields_view, new_record, opt_view, serialize_text, Field, TicketRecord};
use crate::text::{first_match, lemma_first_match, lemma_first_match_is, str_eq};

verus! {

/// A file of the directory as mathematics: its name and its contents.
pub type FileView = (Seq<char>, Seq<char>);

/// The test "is this file called `name`".
pub open spec fn name_test(name: Seq<char>) -> spec_fn(FileView) -> bool {
    |file: FileView| file.0 == name
}

/// The position of the file called `name`, or `files.len()` where there is
/// none.
pub open spec fn file_index(files: Seq<FileView>, name: Seq<char>) -> int {
    first_match(files, name_test(name))
}

/// Whether a file called `name` exists.
pub open spec fn has_file(files: Seq<FileView>, name: Seq<char>) -> bool {
    file_index(files, name) < files.len()
}

/// The contents of the file called `name`.
pub open spec fn contents_of(files: Seq<FileView>, name: Seq<char>) -> Option<Seq<char>> {
    if has_file(files, name) {
        Some(files[file_index(files, name)].1)
    } else {
        None
    }
}

/// No two files have the same name.
pub open spec fn distinct_names(files: Seq<FileView>) -> bool {
    forall|i: int, j: int|
        0 <= i < j < files.len() ==> (#[trigger] files[i]).0 != (#[trigger] files[j]).0
}

/// Where names are distinct, a file is found at its own position.
pub proof fn lemma_file_index(files: Seq<FileView>, i: int)
    requires
        distinct_names(files),
        0 <= i < files.len(),
    ensures
        file_index(files, files[i].0) == i,
{
    let test = name_test(files[i].0);
    assert forall|j: int| 0 <= j < i implies !test(files[j]) by {
        assert(files[j].0 != files[i].0);
    }
    assert(test(files[i]));
    lemma_first_match_is(files, test, i);
}

/// A file called `name` exists exactly where some file has that name.
pub proof fn lemma_has_file(files: Seq<FileView>, name: Seq<char>)
    ensures
        has_file(files, name) <==> exists|i: int| 0 <= i < files.len() && files[i].0 == name,
        has_file(files, name) ==> 0 <= file_index(files, name) && files[file_index(
            files,
            name,
        )].0 == name,
{
    let test = name_test(name);
    lemma_first_match(files, test);
    let at = file_index(files, name);
    if at < files.len() {
        assert(test(files[at]));
    }
    if exists|i: int| 0 <= i < files.len() && files[i].0 == name {
        let i = choose|i: int| 0 <= i < files.len() && files[i].0 == name;
        if at == files.len() {
            assert(!test(files[i]));
        }
    }
}

/// One file of a project's ticket directory.
#[derive(Clone, Debug, PartialEq, Eq)]
pub struct TicketFile {
    pub name: String,
    pub contents: String,
}

impl View for TicketFile {
    type V = FileView;

    open spec fn view(&self) -> FileView {
        (self.name@, self.contents@)
    }
}

/// The files of a vector, each as a name and its contents.
pub open spec fn files_view(files: Seq<TicketFile>) -> Seq<FileView> {
    Seq::new(files.len(), |i: int| files[i]@)
}

/// A project's ticket directory: its files in the order they were listed
/// in. No two files have the same name.
#[derive(Debug)]
pub struct ProjectDir {
    files: Vec<TicketFile>,
}

impl View for ProjectDir {
    type V = Seq<FileView>;

    closed spec fn view(&self) -> Seq<FileView> {
        files_view(self.files@)
    }
}

impl ProjectDir {
    /// What holds of every directory: no two files have the same name.
    #[verifier::type_invariant]
    pub closed spec fn names_are_distinct(self) -> bool {
        distinct_names(files_view(self.files@))
    }

    /// What `names_are_distinct` says, over the view.
    pub proof fn lemma_names_are_distinct(self)
        requires
            self.names_are_distinct(),
        ensures
            distinct_names(self@),
    {
    }

    /// An empty directory.
    pub fn new() -> (dir: ProjectDir)
        ensures
            dir@ == Seq::<FileView>::empty(),
    {
        let dir = ProjectDir { files: Vec::new() };
        assert(dir@ =~= Seq::<FileView>::empty());
        dir
    }

    /// Takes the files out and leaves the directory empty.
    fn take_files(&mut self) -> (files: Vec<TicketFile>)
        ensures
            files_view(files@) == old(self)@,
            distinct_names(files_view(files@)),
            final(self)@ == Seq::<FileView>::empty(),
    {
        let mut taken = ProjectDir { files: Vec::new() };
        assert(taken@ =~= Seq::<FileView>::empty());
        core::mem::swap(self, &mut taken);
        proof {
            use_type_invariant(&taken);
        }
        taken.files
    }

    /// How many files the directory holds.
    pub fn len(&self) -> (n: usize)
        ensures
            n == self@.len(),
    {
        self.files.len()
    }

    /// The name of the file at position `i`.
    pub fn name_at(&self, i: usize) -> (name: String)
        requires
            i < self@.len(),
        ensures
            name@ == self@[i as int].0,
    {
        self.files[i].name.clone()
    }

    /// The contents of the file at position `i`.
    pub fn contents_at(&self, i: usize) -> (contents: String)
        requires
            i < self@.len(),
        ensures
            contents@ == self@[i as int].1,
    {
        self.files[i].contents.clone()
    }

    /// The position of the file called `name`.
    pub fn find(&self, name: &str) -> (found: Option<usize>)
        ensures
            match found {
                Some(i) => i == file_index(self@, name@) && i < self@.len() && self@[i as int].0
                    == name@,
                None => !has_file(self@, name@),
            },
    {
        let ghost test = name_test(name@);
        let mut i: usize = 0;
        while i < self.files.len()
            invariant
                i <= self.files.len(),
                test == name_test(name@),
                forall|j: int| 0 <= j < i ==> !test(self@[j]),
            decreases self.files.len() - i,
        {
            if str_eq(self.files[i].name.as_str(), name) {
                proof {
                    assert(test(self@[i as int]));
                    lemma_first_match_is(self@, test, i as int);
                }
                return Some(i);
            }
            i += 1;
        }
        proof {
            lemma_first_match_is(self@, test, i as int);
        }
        None
    }

    /// The contents of the file called `name`.
    pub fn read(&self, name: &str) -> (contents: Option<String>)
        ensures
            match contents {
                Some(text) => contents_of(self@, name@) == Some(text@),
                None => contents_of(self@, name@) is None,
            },
    {
        match self.find(name) {
            Some(i) => Some(self.files[i].contents.clone()),
            None => None,
        }
    }

    /// Adds a file that must not exist yet. Fails, and leaves the directory
    /// as it is, where a file of that name exists.
    pub fn add_file(&mut self, name: &str, contents: &str) -> (result: Result<(), TicketError>)
        ensures
            match result {
                Ok(()) => !has_file(old(self)@, name@) && final(self)@ == old(self)@.push(
                    (name@, contents@),
                ),
                Err(e) => has_file(old(self)@, name@) && final(self)@ == old(self)@ && (e
                    matches TicketError::TicketAlreadyExists(n) && n@ == name@),
            },
    {
        match self.find(name) {
            Some(_) => Err(TicketError::TicketAlreadyExists(String::from_str(name))),
            None => {
                proof {
                    use_type_invariant(&*self);
                    lemma_has_file(self@, name@);
                }
                let ghost before = self@;
                let file = TicketFile {
                    name: String::from_str(name),
                    contents: String::from_str(contents),
                };
                let mut files = self.take_files();
                files.push(file);
                proof {
                    let after = files_view(files@);
                    assert(after =~= before.push((name@, contents@)));
                    assert forall|i: int, j: int| 0 <= i < j < after.len() implies (
                    #[trigger] after[i]).0 != (#[trigger] after[j]).0 by {
                        if j < before.len() {
                            assert(before[i].0 != before[j].0);
                        } else {
                            assert(before[i].0 != name@);
                        }
                    }
                }
                *self = ProjectDir { files };
                Ok(())
            },
        }
    }
}


/// The test "is this file's name no ticket number".
pub open spec fn corrupt_test() -> spec_fn(FileView) -> bool {
    |file: FileView| ticket_id(file.0) is None
}

/// The position of the first file whose name is no ticket number, or
/// `files.len()` where every name is one.
pub open spec fn first_corrupt(files: Seq<FileView>) -> int {
    first_match(files, corrupt_test())
}

/// The largest ticket number among the file names, or -1 where no name is
/// a ticket number.
pub open spec fn max_id(files: Seq<FileView>) -> int
    decreases files.len(),
{
    if files.len() == 0 {
        -1
    } else {
        let front = max_id(files.drop_last());
        match ticket_id(files.last().0) {
            Some(id) => if id > front {
                id as int
            } else {
                front
            },
            None => front,
        }
    }
}

/// The number that the next ticket gets: one more than the largest in
/// use, 0 in an empty directory. There is none where a file name is no
/// ticket number, or where the largest number a ticket can have is in use.
pub open spec fn next_id_of(files: Seq<FileView>) -> Option<u32> {
    if first_corrupt(files) == files.len() && max_id(files) < u32::MAX {
        Some((max_id(files) + 1) as u32)
    } else {
        None
    }
}

/// The directory after a ticket was created in it.
pub open spec fn created(
    files: Seq<FileView>,
    body: Seq<char>,
    owner: Option<Seq<char>>,
    extra: Seq<(Seq<char>, Seq<char>)>,
) -> Seq<FileView> {
    let id = next_id_of(files)->0;
    files.push((decimal_text(id as nat), serialize_text(new_record(id, body, owner, extra))))
}

/// `max_id` is at least -1 and fits a ticket number; every ticket number
/// among the names is at most `max_id`; and where it is not -1, it is the
/// number of one of the files.
pub proof fn lemma_max_id(files: Seq<FileView>)
    ensures
        -1 <= max_id(files) <= u32::MAX,
        forall|i: int|
            0 <= i < files.len() ==> (ticket_id((#[trigger] files[i]).0) matches Some(id) ==> id
                <= max_id(files)),
        max_id(files) >= 0 ==> exists|i: int|
            0 <= i < files.len() && ticket_id(files[i].0) == Some(max_id(files) as u32),
    decreases files.len(),
{
    if files.len() > 0 {
        let front = files.drop_last();
        lemma_max_id(front);
        assert forall|i: int| 0 <= i < files.len() implies (ticket_id(
            (#[trigger] files[i]).0,
        ) matches Some(id) ==> id <= max_id(files)) by {
            if i < front.len() {
                assert(front[i] == files[i]);
            }
        }
        if max_id(files) >= 0 {
            if max_id(files) == max_id(front) {
                let i = choose|i: int|
                    0 <= i < front.len() && ticket_id(front[i].0) == Some(max_id(front) as u32);
                assert(files[i] == front[i]);
            } else {
                assert(ticket_id(files[files.len() - 1].0) == Some(max_id(files) as u32));
            }
        }
    }
}

/// The next ticket's number is larger than every ticket number in use,
/// and no file has its name yet.
pub proof fn lemma_next_id_is_new(files: Seq<FileView>)
    requires
        next_id_of(files) is Some,
    ensures
        forall|i: int|
            0 <= i < files.len() ==> (ticket_id((#[trigger] files[i]).0) matches Some(id) && id
                < next_id_of(files)->0),
        !has_file(files, decimal_text(next_id_of(files)->0 as nat)),
{
    lemma_max_id(files);
    let next = next_id_of(files)->0;
    let test = corrupt_test();
    lemma_first_match(files, test);
    assert forall|i: int| 0 <= i < files.len() implies (ticket_id(
        (#[trigger] files[i]).0,
    ) matches Some(id) && id < next) by {
        assert(!test(files[i]));
    }
    lemma_id_of_decimal_text(next);
    lemma_has_file(files, decimal_text(next as nat));
}

/// After a ticket was created, the next number is one more than the one
/// it got: numbers are given out in order and never twice.
pub proof fn lemma_created_next_id(
    files: Seq<FileView>,
    body: Seq<char>,
    owner: Option<Seq<char>>,
    extra: Seq<(Seq<char>, Seq<char>)>,
)
    requires
        next_id_of(files) is Some,
    ensures
        first_corrupt(created(files, body, owner, extra)) == files.len() + 1,
        max_id(created(files, body, owner, extra)) == next_id_of(files)->0,
        next_id_of(files)->0 < u32::MAX ==> next_id_of(created(files, body, owner, extra))
            == Some((next_id_of(files)->0 + 1) as u32),
        distinct_names(files) ==> distinct_names(created(files, body, owner, extra)),
{
    let next = next_id_of(files)->0;
    let after = created(files, body, owner, extra);
    let test = corrupt_test();
    lemma_max_id(files);
    lemma_first_match(files, test);
    lemma_id_of_decimal_text(next);
    assert(after.drop_last() =~= files);
    assert(after.last().0 == decimal_text(next as nat));
    assert forall|i: int| 0 <= i < after.len() implies !test(after[i]) by {
        if i < files.len() {
            assert(after[i] == files[i]);
            assert(!test(files[i]));
        }
    }
    lemma_first_match_is(after, test, after.len() as int);
    if distinct_names(files) {
        lemma_next_id_is_new(files);
        lemma_has_file(files, decimal_text(next as nat));
        assert forall|i: int, j: int| 0 <= i < j < after.len() implies (#[trigger] after[i]).0
            != (#[trigger] after[j]).0 by {
            if j < files.len() {
                assert(files[i].0 != files[j].0);
            } else {
                assert(after[i] == files[i]);
            }
        }
    }
}

/// A request to create a ticket: its body, its owner if it has one, and
/// its further header fields.
pub struct NewTicket {
    pub body: Seq<char>,
    pub owner: Option<Seq<char>>,
    pub extra: Seq<(Seq<char>, Seq<char>)>,
}

/// An empty directory after the tickets were created in it, one after the
/// other.
pub open spec fn created_all(requests: Seq<NewTicket>) -> Seq<FileView>
    decreases requests.len(),
{
    if requests.len() == 0 {
        Seq::empty()
    } else {
        let last = requests.last();
        created(created_all(requests.drop_last()), last.body, last.owner, last.extra)
    }
}

/// Starting from an empty directory, the tickets get the numbers 0, 1, 2
/// and so on: after `n` tickets were created the next one gets the number
/// `n`, and the files are named by the numbers below `n`.
pub proof fn lemma_ids_count_up(requests: Seq<NewTicket>)
    requires
        requests.len() <= u32::MAX,
    ensures
        next_id_of(created_all(requests)) == Some(requests.len() as u32),
        created_all(requests).len() == requests.len(),
        forall|k: int|
            0 <= k < requests.len() ==> (#[trigger] created_all(requests)[k]).0 == decimal_text(
                k as nat,
            ),
        distinct_names(created_all(requests)),
    decreases requests.len(),
{
    let files = created_all(requests);
    if requests.len() == 0 {
        lemma_first_match_is(files, corrupt_test(), 0);
    } else {
        let front = requests.drop_last();
        let last = requests.last();
        lemma_ids_count_up(front);
        let before = created_all(front);
        lemma_created_next_id(before, last.body, last.owner, last.extra);
        assert forall|k: int| 0 <= k < requests.len() implies (#[trigger] files[k]).0
            == decimal_text(k as nat) by {
            if k < before.len() {
                assert(files[k] == before[k]);
            }
        }
    }
}

impl ProjectDir {
    /// The number for the next ticket: one more than the largest in use, 0
    /// in an empty directory. Fails with the first file name that is no
    /// ticket number, or where the largest number there is is in use.
    pub fn next_id(&self) -> (result: Result<u32, TicketError>)
        ensures
            match result {
                Ok(id) => next_id_of(self@) == Some(id),
                Err(TicketError::CorruptTicketName(name)) => first_corrupt(self@) < self@.len()
                    && name@ == self@[first_corrupt(self@)].0,
                Err(TicketError::IdSpaceExhausted) => first_corrupt(self@) == self@.len()
                    && max_id(self@) == u32::MAX,
                Err(_) => false,
            },
    {
        let ghost test = corrupt_test();
        let mut max: i64 = -1;
        let mut i: usize = 0;
        assert(self@.take(0) =~= Seq::<FileView>::empty());
        while i < self.files.len()
            invariant
                i <= self.files.len(),
                test == corrupt_test(),
                forall|j: int| 0 <= j < i ==> !test(self@[j]),
                max == max_id(self@.take(i as int)),
                -1 <= max <= u32::MAX,
            decreases self.files.len() - i,
        {
            proof {
                assert(self@.take(i + 1).drop_last() =~= self@.take(i as int));
                assert(self@.take(i + 1).last() == self@[i as int]);
            }
            match parse_id(self.files[i].name.as_str()) {
                Some(id) => {
                    if id as i64 > max {
                        max = id as i64;
                    }
                },
                None => {
                    proof {
                        assert(test(self@[i as int]));
                        lemma_first_match_is(self@, test, i as int);
                    }
                    return Err(TicketError::CorruptTicketName(self.files[i].name.clone()));
                },
            }
            i += 1;
        }
        proof {
            assert(self@.take(i as int) =~= self@);
            lemma_first_match_is(self@, test, i as int);
        }
        if max == u32::MAX as i64 {
            Err(TicketError::IdSpaceExhausted)
        } else {
            Ok((max + 1) as u32)
        }
    }

    /// Creates a ticket with the next number and the status `open`, and
    /// adds its file, named by the number, to the directory. Fails as
    /// `next_id` does, and then leaves the directory as it is.
    pub fn create(&mut self, body: &str, owner: Option<&str>, extra: &Vec<Field>) -> (result:
        Result<TicketRecord, TicketError>)
        ensures
            match result {
                Ok(record) => next_id_of(old(self)@) is Some && record@ == new_record(
                    next_id_of(old(self)@)->0,
                    body@,
                    opt_view(owner),
                    fields_view(extra@),
                ) && final(self)@ == created(
                    old(self)@,
                    body@,
                    opt_view(owner),
                    fields_view(extra@),
                ),
                Err(TicketError::CorruptTicketName(name)) => final(self)@ == old(self)@
                    && first_corrupt(old(self)@) < old(self)@.len() && name@ == old(
                    self,
                )@[first_corrupt(old(self)@)].0,
                Err(TicketError::IdSpaceExhausted) => final(self)@ == old(self)@ && first_corrupt(
                    old(self)@,
                ) == old(self)@.len() && max_id(old(self)@) == u32::MAX,
                Err(_) => false,
            },
    {
        let id = match self.next_id() {
            Ok(id) => id,
            Err(e) => {
                return Err(e);
            },
        };
        let record = TicketRecord::new(id, body, owner, extra);
        let text = record.serialize();
        let name = id_text(id);
        proof {
            lemma_next_id_is_new(self@);
        }
        match self.add_file(name.as_str(), text.as_str()) {
            Ok(()) => Ok(record),
            Err(e) => {
                assert(false);
                Err(e)
            },
        }
    }
}


/// A request to open a ticket's file in an editor.
#[derive(Clone, Debug, PartialEq, Eq)]
pub struct EditRequest {
    /// The name of the file to open.
    pub name: String,
}

impl ProjectDir {
    /// Gives the file at position `i` new contents. Its name and the other
    /// files stay as they are.
    pub fn replace_contents(&mut self, i: usize, contents: String)
        requires
            i < old(self)@.len(),
        ensures
            final(self)@ == old(self)@.update(i as int, (old(self)@[i as int].0, contents@)),
    {
        let ghost before = self@;
        let mut files = self.take_files();
        let name = files[i].name.clone();
        files.set(i, TicketFile { name, contents });
        proof {
            let after = files_view(files@);
            assert(after =~= before.update(i as int, (before[i as int].0, contents@)));
            assert forall|a: int, b: int| 0 <= a < b < after.len() implies (#[trigger] after[a]).0
                != (#[trigger] after[b]).0 by {
                assert(before[a].0 != before[b].0);
            }
        }
        *self = ProjectDir { files };
    }

    /// A request to edit the ticket called `id`. Fails where no such file
    /// exists.
    pub fn open_for_edit(&self, id: &str) -> (result: Result<EditRequest, TicketError>)
        ensures
            match result {
                Ok(request) => has_file(self@, id@) && request.name@ == id@,
                Err(e) => !has_file(self@, id@) && (e matches TicketError::TicketNotFound(n)
                    && n@ == id@),
            },
    {
        match self.find(id) {
            Some(_) => Ok(EditRequest { name: String::from_str(id) }),
            None => Err(TicketError::TicketNotFound(String::from_str(id))),
        }
    }
}

} // verus!
