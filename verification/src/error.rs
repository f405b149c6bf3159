//! What can go wrong, and the message each failure is reported with.

use vstd::prelude::*;
use vstd::string::*;
use crate::text::concat;

verus! {

/// A failure of one of the library's operations.
#[derive(Clone, Debug, PartialEq, Eq)]
pub enum TicketError {
    /// The user's home directory could not be determined.
    HomeDirectoryUnavailable,
    /// Neither the configuration nor the working directory names a project.
    CurrentDirectoryUnavailable,
    /// The user declined to create a configuration; nothing is to be done.
    ConfigDeclined,
    /// A line of the configuration lacks its `:`.
    MalformedConfig,
    /// No command was given.
    MissingCommand,
    /// The command needs an argument that was not given.
    MissingArgument,
    /// The command name is not one the dispatcher knows; holds the name.
    UnknownCommand(String),
    /// A ticket's text has no delimiter line, or a header line without `:`,
    /// or lacks the header line an operation has to change.
    MalformedHeader,
    /// No ticket file of that name exists; holds the name.
    TicketNotFound(String),
    /// A file name in the project directory is not a ticket number; holds
    /// the name.
    CorruptTicketName(String),
    /// A ticket file of that name already exists; holds the name.
    TicketAlreadyExists(String),
    /// The largest ticket number is in use, so no further one can be given.
    IdSpaceExhausted,
}

impl TicketError {
    /// The text a failure is reported with.
    pub open spec fn message(self) -> Seq<char> {
        match self {
            TicketError::HomeDirectoryUnavailable => "Did not find a home directory"@,
            TicketError::CurrentDirectoryUnavailable => "Unable to get current directory"@,
            TicketError::ConfigDeclined => "No config file was created"@,
            TicketError::MalformedConfig => "Malformed config file"@,
            TicketError::MissingCommand => "No action found"@,
            TicketError::MissingArgument => "No filename found"@,
            TicketError::UnknownCommand(name) => "Unrecognized command: "@ + name@,
            TicketError::MalformedHeader => "Malformed ticket header"@,
            TicketError::TicketNotFound(name) => "Ticket not found: "@ + name@,
            TicketError::CorruptTicketName(name) => "Not a ticket number: "@ + name@,
            TicketError::TicketAlreadyExists(name) => "Ticket already exists: "@ + name@,
            TicketError::IdSpaceExhausted => "No ticket number is left"@,
        }
    }

    /// Whether the process is to end with a non-zero exit code on this
    /// failure. Declining to create a configuration is no error.
    pub open spec fn is_fatal(self) -> bool {
        !(self is ConfigDeclined)
    }

    /// The failure as a message for the user.
    pub fn to_error(&self) -> (error: MyError)
        ensures
            error@ == self.message(),
    {
        let details = match self {
            TicketError::HomeDirectoryUnavailable => String::from_str(
                "Did not find a home directory",
            ),
            TicketError::CurrentDirectoryUnavailable => String::from_str(
                "Unable to get current directory",
            ),
            TicketError::ConfigDeclined => String::from_str("No config file was created"),
            TicketError::MalformedConfig => String::from_str("Malformed config file"),
            TicketError::MissingCommand => String::from_str("No action found"),
            TicketError::MissingArgument => String::from_str("No filename found"),
            TicketError::UnknownCommand(name) => concat("Unrecognized command: ", name.as_str()),
            TicketError::MalformedHeader => String::from_str("Malformed ticket header"),
            TicketError::TicketNotFound(name) => concat("Ticket not found: ", name.as_str()),
            TicketError::CorruptTicketName(name) => concat("Not a ticket number: ", name.as_str()),
            TicketError::TicketAlreadyExists(name) => concat(
                "Ticket already exists: ",
                name.as_str(),
            ),
            TicketError::IdSpaceExhausted => String::from_str("No ticket number is left"),
        };
        MyError { details }
    }

    /// The exit code the process ends with on this failure: 0 where the
    /// user declined to create a configuration, 1 otherwise.
    pub fn exit_code(&self) -> (code: u8)
        ensures
            code == (if self.is_fatal() { 1u8 } else { 0u8 }),
    {
        match self {
            TicketError::ConfigDeclined => 0,
            _ => 1,
        }
    }
}

/// A failure as the user sees it: a line of text.
#[derive(Clone, Debug, PartialEq, Eq)]
pub struct MyError {
    pub details: String,
}

impl View for MyError {
    type V = Seq<char>;

    open spec fn view(&self) -> Seq<char> {
        self.details@
    }
}

impl MyError {
    /// An error with the message `msg`.
    pub fn new(msg: &str) -> (error: MyError)
        ensures
            error@ == msg@,
    {
        MyError { details: String::from_str(msg) }
    }

    /// The message.
    pub fn message(&self) -> (msg: String)
        ensures
            msg@ == self@,
    {
        self.details.clone()
    }
}

} // verus!
