//! The commands of the ticket tracker, each as an operation on a project
//! directory, and the dispatcher that picks one by name. What a command
//! gives back says what is to be printed, which files are to be written
//! and which is to be opened in an editor; doing so is left to the caller.

use vstd::prelude::*;
use vstd::string::*;
use crate::error::TicketError;
use crate::filter::{matches_selectors, parse_args, selectors_of, QueryFilter};
use crate::ident::decimal_text;
use crate::listing::{entries_view, list, listed, skipped, EntryView};
use crate::record::{fields_view, serialize_text, Field};
use crate::status::Status;
use crate::store::{
    created, first_corrupt, has_file, max_id, next_id_of, EditRequest, FileView, ProjectDir,
};
use crate::text::{str_eq, strings_view};
use crate::transition::{
    failed_ids, failure_is, set_status, set_status_files, updated_ids, Failure,
};

verus! {

/// A command of the ticket tracker.
#[derive(Clone, Copy, Debug, PartialEq, Eq, Structural)]
pub enum Command {
    New,
    List,
    Current,
    Open,
    Close,
    Start,
    Complete,
    Edit,
    Help,
}

impl Command {
    /// The command that a name names, if it names one.
    pub open spec fn named(name: Seq<char>) -> Option<Command> {
        if name == "new"@ {
            Some(Command::New)
        } else if name == "list"@ {
            Some(Command::List)
        } else if name == "current"@ {
            Some(Command::Current)
        } else if name == "open"@ {
            Some(Command::Open)
        } else if name == "close"@ {
            Some(Command::Close)
        } else if name == "start"@ {
            Some(Command::Start)
        } else if name == "complete"@ {
            Some(Command::Complete)
        } else if name == "edit"@ {
            Some(Command::Edit)
        } else if name == "help"@ {
            Some(Command::Help)
        } else {
            None
        }
    }

    /// The status that a command gives to the tickets it names: `open`
    /// opens, `close` closes, `start` sets in progress, `complete`
    /// completes. The other commands set no status.
    pub open spec fn status(self) -> Option<Status> {
        match self {
            Command::Open => Some(Status::Open),
            Command::Close => Some(Status::Closed),
            Command::Start => Some(Status::InProgress),
            Command::Complete => Some(Status::Complete),
            _ => None,
        }
    }

    /// The command called `name`. Fails with the name where it names none.
    pub fn parse(name: &str) -> (result: Result<Command, TicketError>)
        ensures
            match result {
                Ok(command) => Command::named(name@) == Some(command),
                Err(e) => Command::named(name@) is None && (e matches TicketError::UnknownCommand(
                    n,
                ) && n@ == name@),
            },
    {
        if str_eq(name, "new") {
            Ok(Command::New)
        } else if str_eq(name, "list") {
            Ok(Command::List)
        } else if str_eq(name, "current") {
            Ok(Command::Current)
        } else if str_eq(name, "open") {
            Ok(Command::Open)
        } else if str_eq(name, "close") {
            Ok(Command::Close)
        } else if str_eq(name, "start") {
            Ok(Command::Start)
        } else if str_eq(name, "complete") {
            Ok(Command::Complete)
        } else if str_eq(name, "edit") {
            Ok(Command::Edit)
        } else if str_eq(name, "help") {
            Ok(Command::Help)
        } else {
            Err(TicketError::UnknownCommand(String::from_str(name)))
        }
    }

    /// The status that the command gives to the tickets it names.
    pub fn new_status(self) -> (status: Option<Status>)
        ensures
            status == self.status(),
    {
        match self {
            Command::Open => Some(Status::Open),
            Command::Close => Some(Status::Closed),
            Command::Start => Some(Status::InProgress),
            Command::Complete => Some(Status::Complete),
            _ => None,
        }
    }
}

/// The command's name among the program's arguments: the second one, after
/// the program's own name. Fails where there is none.
pub fn get_command(args: &Vec<String>) -> (result: Result<String, TicketError>)
    ensures
        match result {
            Ok(name) => args@.len() >= 2 && name@ == args@[1]@,
            Err(e) => args@.len() < 2 && e == TicketError::MissingCommand,
        },
{
    if args.len() >= 2 {
        Ok(args[1].clone())
    } else {
        Err(TicketError::MissingCommand)
    }
}

/// The body that a new ticket gets where none is given.
pub open spec fn default_body() -> Seq<char> {
    "Ticket description should go here"@
}

/// The body for a new ticket among a command's arguments: the first one,
/// or the default.
pub open spec fn content_of(args: Seq<Seq<char>>) -> Seq<char> {
    if args.len() > 0 {
        args[0]
    } else {
        default_body()
    }
}

/// The body for a new ticket: the first argument, or a default text.
pub fn get_content(args: &Vec<String>) -> (body: String)
    ensures
        body@ == content_of(strings_view(args@)),
{
    if args.len() > 0 {
        args[0].clone()
    } else {
        String::from_str("Ticket description should go here")
    }
}

/// What a command asks its caller to do.
#[derive(Clone, Debug, PartialEq, Eq)]
pub struct Outcome {
    /// Texts to print, each on its own.
    pub output: Vec<String>,
    /// Names of files that were added and are to be written, each as a
    /// file that must not exist yet.
    pub created: Vec<String>,
    /// Names of files whose contents changed and are to be written.
    pub updated: Vec<String>,
    /// Names of files that a listing passed over, to warn of.
    pub skipped: Vec<String>,
    /// Tickets that could not be changed, to be reported together.
    pub failed: Vec<Failure>,
    /// The file to open in an editor.
    pub edit: Option<EditRequest>,
    /// The exit code for the process.
    pub exit_code: u8,
}

impl Outcome {
    /// Whether nothing is asked but to print.
    pub open spec fn only_prints(self) -> bool {
        &&& self.created@.len() == 0
        &&& self.updated@.len() == 0
        &&& self.skipped@.len() == 0
        &&& self.failed@.len() == 0
        &&& self.edit is None
        &&& self.exit_code == 0
    }

    /// An outcome that asks for nothing.
    pub fn new() -> (outcome: Outcome)
        ensures
            outcome.output@.len() == 0,
            outcome.only_prints(),
    {
        Outcome {
            output: Vec::new(),
            created: Vec::new(),
            updated: Vec::new(),
            skipped: Vec::new(),
            failed: Vec::new(),
            edit: None,
            exit_code: 0,
        }
    }
}

/// The summary of the commands, line by line.
pub open spec fn help_text() -> Seq<Seq<char>> {
    seq![
        "Tickets are kept as one file each in ${HOME}/.tickets/{project_name}/."@,
        "The project_name is read from the file .tickets_config in the working directory."@,
        "Commands you can run include:"@,
        "new <body>                Creates a new ticket"@,
        "list [--open] [--closed] [--complete] [--current]"@,
        "                          Lists tickets for this project"@,
        "current                   Lists tickets that are in progress"@,
        "open <id...>              Marks tickets as open"@,
        "close <id...>             Marks tickets as closed"@,
        "start <id...>             Marks tickets as in_progress"@,
        "complete <id...>          Marks tickets as complete"@,
        "edit <id>                 Opens a ticket in an editor"@,
        "help                      Print this menu"@,
    ]
}

/// The summary of the commands.
pub fn print_help() -> (lines: Vec<String>)
    ensures
        strings_view(lines@) == help_text(),
{
    let mut lines: Vec<String> = Vec::new();
    lines.push(
        String::from_str("Tickets are kept as one file each in ${HOME}/.tickets/{project_name}/."),
    );
    lines.push(
        String::from_str(
            "The project_name is read from the file .tickets_config in the working directory.",
        ),
    );
    lines.push(String::from_str("Commands you can run include:"));
    lines.push(String::from_str("new <body>                Creates a new ticket"));
    lines.push(String::from_str("list [--open] [--closed] [--complete] [--current]"));
    lines.push(String::from_str("                          Lists tickets for this project"));
    lines.push(String::from_str("current                   Lists tickets that are in progress"));
    lines.push(String::from_str("open <id...>              Marks tickets as open"));
    lines.push(String::from_str("close <id...>             Marks tickets as closed"));
    lines.push(String::from_str("start <id...>             Marks tickets as in_progress"));
    lines.push(String::from_str("complete <id...>          Marks tickets as complete"));
    lines.push(String::from_str("edit <id>                 Opens a ticket in an editor"));
    lines.push(String::from_str("help                      Print this menu"));
    assert(strings_view(lines@) =~= help_text());
    lines
}

/// The texts that a listing shows: of the entries that pass the
/// selectors, the ticket's text, in the order of the entries.
pub open spec fn shown(entries: Seq<EntryView>, selectors: Seq<Seq<char>>) -> Seq<Seq<char>>
    decreases entries.len(),
{
    if entries.len() == 0 {
        Seq::empty()
    } else {
        let front = shown(entries.drop_last(), selectors);
        if matches_selectors(entries.last().1, selectors) {
            front.push(serialize_text(entries.last().1))
        } else {
            front
        }
    }
}

/// What `list_tickets` gives for these files and selectors.
pub open spec fn lists(files: Seq<FileView>, selectors: Seq<Seq<char>>, outcome: Outcome) -> bool {
    &&& strings_view(outcome.output@) == shown(listed(files), selectors)
    &&& strings_view(outcome.skipped@) == skipped(files)
    &&& outcome.created@.len() == 0
    &&& outcome.updated@.len() == 0
    &&& outcome.failed@.len() == 0
    &&& outcome.edit is None
    &&& outcome.exit_code == 0
}

/// Lists the tickets that pass the selectors, in the order of their
/// numbers. Files that are no tickets are passed over and named in
/// `skipped`.
pub fn list_tickets(dir: &ProjectDir, selectors: &Vec<String>) -> (outcome: Outcome)
    ensures
        lists(dir@, strings_view(selectors@), outcome),
{
    let listing = list(dir);
    let filter = QueryFilter::new(selectors.clone());
    assert(filter@ =~= strings_view(selectors@));
    let ghost entries = listed(dir@);
    let ghost chosen = strings_view(selectors@);
    let mut output: Vec<String> = Vec::new();
    let mut i: usize = 0;
    assert(entries.take(0) =~= Seq::<EntryView>::empty());
    assert(strings_view(output@) =~= Seq::<Seq<char>>::empty());
    while i < listing.tickets.len()
        invariant
            i <= listing.tickets.len(),
            entries == entries_view(listing.tickets@),
            chosen == filter@,
            strings_view(output@) == shown(entries.take(i as int), chosen),
        decreases listing.tickets.len() - i,
    {
        proof {
            assert(entries.take(i + 1).drop_last() =~= entries.take(i as int));
            assert(entries.take(i + 1).last() == listing.tickets[i as int]@);
        }
        let ghost before = strings_view(output@);
        if filter.matches(&listing.tickets[i].record) {
            output.push(listing.tickets[i].record.serialize());
            assert(strings_view(output@) =~= before.push(
                serialize_text(listing.tickets[i as int]@.1),
            ));
        }
        i += 1;
    }
    assert(entries.take(i as int) =~= entries);
    Outcome {
        output,
        created: Vec::new(),
        updated: Vec::new(),
        skipped: listing.skipped,
        failed: Vec::new(),
        edit: None,
        exit_code: 0,
    }
}

/// What `new_ticket` gives for these files and arguments.
pub open spec fn creates(
    before: Seq<FileView>,
    args: Seq<Seq<char>>,
    result: Result<Outcome, TicketError>,
    after: Seq<FileView>,
) -> bool {
    match result {
        Ok(outcome) => {
            &&& next_id_of(before) is Some
            &&& after == created(before, content_of(args), None, Seq::empty())
            &&& strings_view(outcome.created@) == seq![
                decimal_text(next_id_of(before)->0 as nat),
            ]
            &&& outcome.output@.len() == 0
            &&& outcome.updated@.len() == 0
            &&& outcome.skipped@.len() == 0
            &&& outcome.failed@.len() == 0
            &&& outcome.edit is None
            &&& outcome.exit_code == 0
        },
        Err(TicketError::CorruptTicketName(name)) => after == before && first_corrupt(before)
            < before.len() && name@ == before[first_corrupt(before)].0,
        Err(TicketError::IdSpaceExhausted) => after == before && first_corrupt(before)
            == before.len() && max_id(before) == u32::MAX,
        Err(_) => false,
    }
}

/// Creates a ticket with the next number, the status `open` and the body
/// that the first argument gives.
pub fn new_ticket(dir: &mut ProjectDir, args: &Vec<String>) -> (result: Result<
    Outcome,
    TicketError,
>)
    ensures
        creates(old(dir)@, strings_view(args@), result, final(dir)@),
{
    let body = get_content(args);
    let extra: Vec<Field> = Vec::new();
    assert(fields_view(extra@) =~= Seq::<(Seq<char>, Seq<char>)>::empty());
    match dir.create(body.as_str(), None, &extra) {
        Ok(_) => {},
        Err(e) => {
            return Err(e);
        },
    }
    let ghost id = next_id_of(old(dir)@)->0;
    let name = dir.name_at(dir.len() - 1);
    let mut made: Vec<String> = Vec::new();
    made.push(name);
    assert(strings_view(made@) =~= seq![decimal_text(id as nat)]);
    Ok(
        Outcome {
            output: Vec::new(),
            created: made,
            updated: Vec::new(),
            skipped: Vec::new(),
            failed: Vec::new(),
            edit: None,
            exit_code: 0,
        },
    )
}

/// What `edit_tickets_status` gives for these files, names and status.
pub open spec fn transitions(
    before: Seq<FileView>,
    ids: Seq<Seq<char>>,
    status: Status,
    outcome: Outcome,
    after: Seq<FileView>,
) -> bool {
    &&& after == set_status_files(before, ids, status)
    &&& strings_view(outcome.updated@) == updated_ids(before, ids, status)
    &&& outcome.failed@.len() == failed_ids(before, ids, status).len()
    &&& forall|k: int|
        0 <= k < outcome.failed@.len() ==> failure_is(
            #[trigger] outcome.failed@[k],
            failed_ids(before, ids, status)[k],
        )
    &&& outcome.exit_code == (if outcome.updated@.len() == 0 && outcome.failed@.len() > 0 {
        1u8
    } else {
        0u8
    })
    &&& outcome.output@.len() == 0
    &&& outcome.created@.len() == 0
    &&& outcome.skipped@.len() == 0
    &&& outcome.edit is None
}

/// Sets the status of the tickets that the arguments name. The exit code
/// is 1 where tickets failed and none was changed, else 0.
pub fn edit_tickets_status(dir: &mut ProjectDir, args: &Vec<String>, status: Status) -> (outcome:
    Outcome)
    ensures
        transitions(old(dir)@, strings_view(args@), status, outcome, final(dir)@),
{
    let report = set_status(dir, args, status);
    let exit_code = report.exit_code();
    Outcome {
        output: Vec::new(),
        created: Vec::new(),
        updated: report.updated,
        skipped: Vec::new(),
        failed: report.failed,
        edit: None,
        exit_code,
    }
}

/// What `edit_ticket` gives for these files and arguments.
pub open spec fn edits(
    files: Seq<FileView>,
    args: Seq<Seq<char>>,
    result: Result<Outcome, TicketError>,
) -> bool {
    match result {
        Ok(outcome) => {
            &&& args.len() > 0
            &&& has_file(files, args[0])
            &&& outcome.edit matches Some(request) && request.name@ == args[0]
            &&& outcome.output@.len() == 0
            &&& outcome.created@.len() == 0
            &&& outcome.updated@.len() == 0
            &&& outcome.skipped@.len() == 0
            &&& outcome.failed@.len() == 0
            &&& outcome.exit_code == 0
        },
        Err(TicketError::MissingArgument) => args.len() == 0,
        Err(TicketError::TicketNotFound(name)) => args.len() > 0 && !has_file(files, args[0])
            && name@ == args[0],
        Err(_) => false,
    }
}

/// Asks for the ticket that the first argument names to be opened in an
/// editor. Fails where no ticket is named or the named one does not exist.
pub fn edit_ticket(dir: &ProjectDir, args: &Vec<String>) -> (result: Result<Outcome, TicketError>)
    ensures
        edits(dir@, strings_view(args@), result),
{
    if args.len() == 0 {
        return Err(TicketError::MissingArgument);
    }
    match dir.open_for_edit(args[0].as_str()) {
        Ok(request) => Ok(
            Outcome {
                output: Vec::new(),
                created: Vec::new(),
                updated: Vec::new(),
                skipped: Vec::new(),
                failed: Vec::new(),
                edit: Some(request),
                exit_code: 0,
            },
        ),
        Err(e) => Err(e),
    }
}

/// What a command does to the files and gives back.
pub open spec fn runs(
    command: Command,
    before: Seq<FileView>,
    args: Seq<Seq<char>>,
    result: Result<Outcome, TicketError>,
    after: Seq<FileView>,
) -> bool {
    match command {
        Command::New => creates(before, args, result, after),
        Command::List => after == before && (result matches Ok(outcome) && lists(
            before,
            selectors_of(args),
            outcome,
        )),
        Command::Current => after == before && (result matches Ok(outcome) && lists(
            before,
            seq![Status::InProgress.name()],
            outcome,
        )),
        Command::Edit => after == before && edits(before, args, result),
        Command::Help => after == before && (result matches Ok(outcome) && strings_view(
            outcome.output@,
        ) == help_text() && outcome.only_prints()),
        _ => result matches Ok(outcome) && transitions(
            before,
            args,
            command.status()->0,
            outcome,
            after,
        ),
    }
}

/// Runs the command called `command` with its arguments on the project
/// directory. Fails with `UnknownCommand` where the name names no command,
/// and then leaves the directory as it is.
pub fn run_command(command: &str, args: &Vec<String>, dir: &mut ProjectDir) -> (result: Result<
    Outcome,
    TicketError,
>)
    ensures
        match Command::named(command@) {
            Some(c) => runs(c, old(dir)@, strings_view(args@), result, final(dir)@),
            None => final(dir)@ == old(dir)@ && (result matches Err(
                TicketError::UnknownCommand(name),
            ) && name@ == command@),
        },
{
    let c = match Command::parse(command) {
        Ok(c) => c,
        Err(e) => {
            return Err(e);
        },
    };
    match c {
        Command::New => new_ticket(dir, args),
        Command::List => {
            let selectors = match parse_args(args) {
                Ok(selectors) => selectors,
                Err(e) => {
                    return Err(e);
                },
            };
            Ok(list_tickets(dir, &selectors))
        },
        Command::Current => {
            let mut selectors: Vec<String> = Vec::new();
            selectors.push(String::from_str(Status::InProgress.as_str()));
            assert(strings_view(selectors@) =~= seq![Status::InProgress.name()]);
            Ok(list_tickets(dir, &selectors))
        },
        Command::Open => Ok(edit_tickets_status(dir, args, Status::Open)),
        Command::Close => Ok(edit_tickets_status(dir, args, Status::Closed)),
        Command::Start => Ok(edit_tickets_status(dir, args, Status::InProgress)),
        Command::Complete => Ok(edit_tickets_status(dir, args, Status::Complete)),
        Command::Edit => edit_ticket(dir, args),
        Command::Help => {
            let mut outcome = Outcome::new();
            outcome.output = print_help();
            Ok(outcome)
        },
    }
}

} // verus!
