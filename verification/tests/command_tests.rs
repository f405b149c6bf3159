use tickets::command::{
    edit_ticket, get_command, get_content, list_tickets, new_ticket, print_help, run_command,
    Command,
};
use tickets::error::{MyError, TicketError};
use tickets::filter::{parse_args, search_file, QueryFilter};
use tickets::project::{
    confirm_config, confirms, create_config, get_config, get_project_name, join_path,
    project_name, resolve, ticket_path, tickets_root, Config,
};
use tickets::record::{Field, TicketRecord};
use tickets::status::Status;
use tickets::store::ProjectDir;
use tickets::text::{split_spans, str_eq, to_chars, trim_span};

fn strings(names: &[&str]) -> Vec<String> {
    names.iter().map(|name| name.to_string()).collect()
}

fn record_with_status(status: &str) -> TicketRecord {
    TicketRecord {
        fields: vec![Field::new("ticket", "1"), Field::new("status", status)],
        body: "b".to_string(),
    }
}

#[test]
fn parse_args_keeps_the_known_flags() {
    let args = strings(&["--open", "--verbose", "--closed", "x", "--complete"]);
    assert_eq!(parse_args(&args), Ok(strings(&["open", "closed", "complete"])));
}

#[test]
fn parse_args_reads_current_as_in_progress() {
    assert_eq!(parse_args(&strings(&["--current"])), Ok(strings(&["in_progress"])));
    assert_eq!(parse_args(&strings(&["--in_progress"])), Ok(strings(&["in_progress"])));
}

#[test]
fn parse_args_drops_unknown_flags_silently() {
    assert_eq!(parse_args(&strings(&["--xyz", "open", "-open", "--Open"])), Ok(vec![]));
    assert_eq!(parse_args(&vec![]), Ok(vec![]));
}

#[test]
fn parse_args_passes_over_white_space_around_a_flag() {
    assert_eq!(parse_args(&strings(&[" --open\n", "\t--closed"])), Ok(strings(&["open", "closed"])));
    assert_eq!(parse_args(&strings(&["-- open"])), Ok(vec![]));
}

#[test]
fn an_empty_filter_matches_every_record() {
    let filter = QueryFilter::new(vec![]);
    assert!(filter.matches(&record_with_status("open")));
    assert!(filter.matches(&record_with_status("anything")));
    let no_status = TicketRecord { fields: vec![], body: String::new() };
    assert!(filter.matches(&no_status));
}

#[test]
fn a_closed_filter_matches_only_closed_records() {
    let filter = QueryFilter::new(strings(&["closed"]));
    assert!(filter.matches(&record_with_status("closed")));
    assert!(!filter.matches(&record_with_status("open")));
    assert!(!filter.matches(&record_with_status("Closed")));
    assert!(!filter.matches(&record_with_status("closed ")));
    let no_status = TicketRecord { fields: vec![], body: String::new() };
    assert!(!filter.matches(&no_status));
}

#[test]
fn a_filter_matches_any_of_its_selectors() {
    let filter = QueryFilter::new(strings(&["open", "complete"]));
    assert!(filter.matches(&record_with_status("complete")));
    assert!(filter.matches(&record_with_status("open")));
    assert!(!filter.matches(&record_with_status("closed")));
}

#[test]
fn search_file_parses_and_matches() {
    let text = "ticket:0\nstatus:closed\n================\nb\n\n";
    assert!(search_file(text, &vec![]));
    assert!(search_file(text, &strings(&["closed"])));
    assert!(!search_file(text, &strings(&["open"])));
    assert!(!search_file("no delimiter", &vec![]));
    assert!(!search_file("ticket:0\n====\nno status\n", &strings(&["open"])));
}

#[test]
fn command_names() {
    assert_eq!(Command::parse("new"), Ok(Command::New));
    assert_eq!(Command::parse("list"), Ok(Command::List));
    assert_eq!(Command::parse("current"), Ok(Command::Current));
    assert_eq!(Command::parse("open"), Ok(Command::Open));
    assert_eq!(Command::parse("close"), Ok(Command::Close));
    assert_eq!(Command::parse("start"), Ok(Command::Start));
    assert_eq!(Command::parse("complete"), Ok(Command::Complete));
    assert_eq!(Command::parse("edit"), Ok(Command::Edit));
    assert_eq!(Command::parse("help"), Ok(Command::Help));
    assert_eq!(
        Command::parse("delete"),
        Err(TicketError::UnknownCommand("delete".to_string()))
    );
    assert_eq!(Command::Close.new_status(), Some(Status::Closed));
    assert_eq!(Command::Start.new_status(), Some(Status::InProgress));
    assert_eq!(Command::Open.new_status(), Some(Status::Open));
    assert_eq!(Command::Complete.new_status(), Some(Status::Complete));
    assert_eq!(Command::List.new_status(), None);
}

#[test]
fn get_command_takes_the_second_argument() {
    assert_eq!(get_command(&strings(&["tickets", "list", "--open"])), Ok("list".to_string()));
    assert_eq!(get_command(&strings(&["tickets"])), Err(TicketError::MissingCommand));
    assert_eq!(get_command(&vec![]), Err(TicketError::MissingCommand));
}

#[test]
fn get_content_takes_the_first_argument_or_the_default() {
    assert_eq!(get_content(&strings(&["fix bug", "more"])), "fix bug");
    assert_eq!(get_content(&vec![]), "Ticket description should go here");
}

#[test]
fn an_unknown_command_fails_and_changes_nothing() {
    let mut dir = ProjectDir::new();
    assert_eq!(
        run_command("frobnicate", &vec![], &mut dir),
        Err(TicketError::UnknownCommand("frobnicate".to_string()))
    );
    assert_eq!(dir.len(), 0);
}

#[test]
fn help_prints_the_summary() {
    let mut dir = ProjectDir::new();
    let outcome = run_command("help", &vec![], &mut dir).unwrap();
    assert_eq!(outcome.output, print_help());
    assert_eq!(outcome.output.len(), 13);
    assert_eq!(outcome.output[2], "Commands you can run include:");
    assert_eq!(outcome.exit_code, 0);
}

#[test]
fn end_to_end_new_start_list() {
    let mut dir = ProjectDir::new();
    let outcome = run_command("new", &strings(&["fix bug"]), &mut dir).unwrap();
    assert_eq!(outcome.created, strings(&["0"]));
    assert!(outcome.updated.is_empty());
    assert_eq!(
        dir.read("0"),
        Some("ticket:0\nstatus:open\n================\nfix bug\n\n".to_string())
    );

    let outcome = run_command("start", &strings(&["0"]), &mut dir).unwrap();
    assert_eq!(outcome.updated, strings(&["0"]));
    assert!(outcome.failed.is_empty());
    assert_eq!(outcome.exit_code, 0);
    assert_eq!(
        dir.read("0"),
        Some("ticket:0\nstatus:in_progress\n================\nfix bug\n\n".to_string())
    );

    let outcome = run_command("list", &strings(&["--current"]), &mut dir).unwrap();
    assert_eq!(
        outcome.output,
        strings(&["ticket:0\nstatus:in_progress\n================\nfix bug\n\n"])
    );
    let outcome = run_command("current", &vec![], &mut dir).unwrap();
    assert_eq!(outcome.output.len(), 1);
    let outcome = run_command("list", &strings(&["--open"]), &mut dir).unwrap();
    assert!(outcome.output.is_empty());
    let outcome = run_command("list", &vec![], &mut dir).unwrap();
    assert_eq!(outcome.output.len(), 1);
}

#[test]
fn new_without_a_body_uses_the_default() {
    let mut dir = ProjectDir::new();
    new_ticket(&mut dir, &vec![]).unwrap();
    assert_eq!(
        dir.read("0"),
        Some(
            "ticket:0\nstatus:open\n================\nTicket description should go here\n\n"
                .to_string()
        )
    );
}

#[test]
fn new_fails_on_a_corrupt_directory() {
    let mut dir = ProjectDir::new();
    dir.add_file("junk", "").unwrap();
    assert_eq!(
        run_command("new", &strings(&["b"]), &mut dir),
        Err(TicketError::CorruptTicketName("junk".to_string()))
    );
    assert_eq!(dir.len(), 1);
}

#[test]
fn list_shows_the_good_tickets_and_warns_of_the_bad() {
    let mut dir = ProjectDir::new();
    dir.add_file("1", "no delimiter line").unwrap();
    dir.add_file("0", "ticket:0\nstatus:open\n================\ngood\n\n").unwrap();
    let outcome = list_tickets(&dir, &vec![]);
    assert_eq!(outcome.output, strings(&["ticket:0\nstatus:open\n================\ngood\n\n"]));
    assert_eq!(outcome.skipped, strings(&["1"]));
    assert_eq!(outcome.exit_code, 0);
}

#[test]
fn the_status_commands_set_their_status() {
    for (command, status) in
        [("open", "open"), ("close", "closed"), ("start", "in_progress"), ("complete", "complete")]
    {
        let mut dir = ProjectDir::new();
        dir.add_file("0", "ticket:0\nstatus:unknown\n================\nb\n\n").unwrap();
        let outcome = run_command(command, &strings(&["0", "5"]), &mut dir).unwrap();
        assert_eq!(outcome.updated, strings(&["0"]));
        assert_eq!(outcome.failed.len(), 1);
        assert_eq!(outcome.failed[0].error, TicketError::TicketNotFound("5".to_string()));
        assert_eq!(outcome.exit_code, 0);
        let record = TicketRecord::parse(&dir.read("0").unwrap()).unwrap();
        assert_eq!(record.status(), Some(status.to_string()));
    }
}

#[test]
fn a_status_command_that_changes_nothing_exits_with_one() {
    let mut dir = ProjectDir::new();
    let outcome = run_command("close", &strings(&["3"]), &mut dir).unwrap();
    assert_eq!(outcome.exit_code, 1);
    assert!(outcome.updated.is_empty());
}

#[test]
fn edit_asks_for_the_named_ticket() {
    let mut dir = ProjectDir::new();
    dir.add_file("4", "x").unwrap();
    let outcome = run_command("edit", &strings(&["4"]), &mut dir).unwrap();
    assert_eq!(outcome.edit.unwrap().name, "4");
    assert_eq!(
        run_command("edit", &strings(&["5"]), &mut dir),
        Err(TicketError::TicketNotFound("5".to_string()))
    );
    assert_eq!(edit_ticket(&dir, &vec![]), Err(TicketError::MissingArgument));
}

#[test]
fn error_messages() {
    assert_eq!(
        TicketError::UnknownCommand("x".to_string()).to_error().message(),
        "Unrecognized command: x"
    );
    assert_eq!(
        TicketError::HomeDirectoryUnavailable.to_error().details,
        "Did not find a home directory"
    );
    assert_eq!(
        TicketError::CurrentDirectoryUnavailable.to_error().details,
        "Unable to get current directory"
    );
    assert_eq!(TicketError::MissingCommand.to_error().details, "No action found");
    assert_eq!(TicketError::MissingArgument.to_error().details, "No filename found");
    assert_eq!(
        TicketError::TicketNotFound("9".to_string()).to_error().details,
        "Ticket not found: 9"
    );
    assert_eq!(
        TicketError::CorruptTicketName("a".to_string()).to_error().details,
        "Not a ticket number: a"
    );
    assert_eq!(
        TicketError::TicketAlreadyExists("1".to_string()).to_error().details,
        "Ticket already exists: 1"
    );
    assert_eq!(TicketError::MalformedHeader.to_error().details, "Malformed ticket header");
    assert_eq!(TicketError::MalformedConfig.to_error().details, "Malformed config file");
    assert_eq!(TicketError::IdSpaceExhausted.to_error().details, "No ticket number is left");
    assert_eq!(MyError::new("borked").message(), "borked");
    assert_eq!(MyError::new("borked"), MyError { details: "borked".to_string() });
}

#[test]
fn exit_codes_of_errors() {
    assert_eq!(TicketError::ConfigDeclined.exit_code(), 0);
    assert_eq!(TicketError::HomeDirectoryUnavailable.exit_code(), 1);
    assert_eq!(TicketError::CurrentDirectoryUnavailable.exit_code(), 1);
    assert_eq!(TicketError::UnknownCommand("x".to_string()).exit_code(), 1);
    assert_eq!(TicketError::MalformedConfig.exit_code(), 1);
}

#[test]
fn config_is_read_line_by_line() {
    let config = get_config(Some("project_name:demo\nfuture:a:b\n")).unwrap();
    assert_eq!(config.entries, vec![Field::new("project_name", "demo"), Field::new("future", "a:b")]);
    assert_eq!(config.get("project_name"), Some("demo".to_string()));
    assert_eq!(config.get("future"), Some("a:b".to_string()));
    assert_eq!(config.get("other"), None);
    assert_eq!(config.serialize(), "project_name:demo\nfuture:a:b\n");
}

#[test]
fn config_without_file_or_text_is_empty() {
    assert_eq!(get_config(None), Ok(Config { entries: vec![] }));
    assert_eq!(get_config(Some("")), Ok(Config { entries: vec![] }));
    assert_eq!(Config::new().serialize(), "");
}

#[test]
fn config_need_not_end_in_a_newline() {
    let config = Config::parse("project_name:demo").unwrap();
    assert_eq!(config.get("project_name"), Some("demo".to_string()));
}

#[test]
fn config_later_entries_win() {
    let config = Config::parse("project_name:a\nproject_name:b\n").unwrap();
    assert_eq!(config.get("project_name"), Some("b".to_string()));
}

#[test]
fn config_fails_on_a_line_without_colon() {
    assert_eq!(Config::parse("project_name demo\n"), Err(TicketError::MalformedConfig));
    assert_eq!(Config::parse("a:b\n\nc:d\n"), Err(TicketError::MalformedConfig));
    assert_eq!(get_config(Some("\n")), Err(TicketError::MalformedConfig));
}

#[test]
fn confirms_takes_y_only() {
    assert!(confirms("y"));
    assert!(confirms("Y\n"));
    assert!(confirms("  y \t\n"));
    assert!(!confirms(""));
    assert!(!confirms("\n"));
    assert!(!confirms("yes"));
    assert!(!confirms("n"));
    assert_eq!(confirm_config("y\n"), Ok(()));
    assert_eq!(confirm_config("n\n"), Err(TicketError::ConfigDeclined));
}

#[test]
fn create_config_takes_the_first_word_or_the_default() {
    assert_eq!(create_config("demo\n", "fallback"), "project_name:demo\n");
    assert_eq!(create_config("  my project \n", "fallback"), "project_name:my\n");
    assert_eq!(create_config("\n", "fallback"), "project_name:fallback\n");
    assert_eq!(create_config("", " fallback "), "project_name:fallback\n");
    assert_eq!(create_config("\u{3000}x\u{a0}y", "d"), "project_name:x\n");
}

#[test]
fn join_path_adds_a_separator_where_needed() {
    assert_eq!(join_path("/home/u", ".tickets"), "/home/u/.tickets");
    assert_eq!(join_path("/home/u/", ".tickets"), "/home/u/.tickets");
    assert_eq!(join_path("/", ".tickets"), "/.tickets");
    assert_eq!(join_path("", ".tickets"), ".tickets");
}

#[test]
fn tickets_root_lies_below_home() {
    assert_eq!(tickets_root(Some("/home/u")), Ok("/home/u/.tickets".to_string()));
    assert_eq!(tickets_root(None), Err(TicketError::HomeDirectoryUnavailable));
}

#[test]
fn ticket_path_ends_in_the_tickets_directory() {
    match ticket_path() {
        Ok(path) => assert!(path.ends_with(".tickets")),
        Err(e) => assert_eq!(e, TicketError::HomeDirectoryUnavailable),
    }
}

#[test]
fn project_name_defaults_to_the_base_name() {
    assert_eq!(get_project_name(Some("/home/u/work/demo")), Ok("demo".to_string()));
    assert_eq!(get_project_name(Some("/home/u/work/demo/")), Ok("demo".to_string()));
    assert_eq!(get_project_name(Some("/home/u/work/demo//./")), Ok("demo".to_string()));
    assert_eq!(get_project_name(Some("demo")), Ok("demo".to_string()));
    assert_eq!(get_project_name(Some("/a/...")), Ok("...".to_string()));
}

#[test]
fn project_name_fails_where_the_path_names_nothing() {
    let unavailable = Err(TicketError::CurrentDirectoryUnavailable);
    assert_eq!(get_project_name(None), unavailable);
    assert_eq!(get_project_name(Some("/")), unavailable);
    assert_eq!(get_project_name(Some("")), unavailable);
    assert_eq!(get_project_name(Some(".")), unavailable);
    assert_eq!(get_project_name(Some("/home/u/..")), unavailable);
    assert_eq!(get_project_name(Some("/home/u/../")), unavailable);
}

#[test]
fn project_name_prefers_the_configuration() {
    let config = Config::parse("project_name:fromconfig\n").unwrap();
    assert_eq!(project_name(&config, Some("/x/fromdir")), Ok("fromconfig".to_string()));
    assert_eq!(project_name(&config, None), Ok("fromconfig".to_string()));
    assert_eq!(project_name(&Config::new(), Some("/x/fromdir")), Ok("fromdir".to_string()));
    assert_eq!(
        project_name(&Config::new(), None),
        Err(TicketError::CurrentDirectoryUnavailable)
    );
}

#[test]
fn resolve_builds_the_context() {
    let context = resolve(Some("/home/u"), Some("project_name:demo\n"), Some("/w/dir")).unwrap();
    assert_eq!(context.tickets_root, "/home/u/.tickets");
    assert_eq!(context.project_name, "demo");
    assert_eq!(context.project_dir(), "/home/u/.tickets/demo");
    let context = resolve(Some("/home/u"), None, Some("/w/dir")).unwrap();
    assert_eq!(context.project_name, "dir");
    assert!(context.config.entries.is_empty());
}

#[test]
fn resolve_fails_in_order() {
    assert_eq!(
        resolve(None, Some("bad"), None),
        Err(TicketError::HomeDirectoryUnavailable)
    );
    assert_eq!(
        resolve(Some("/h"), Some("bad"), None),
        Err(TicketError::MalformedConfig)
    );
    assert_eq!(
        resolve(Some("/h"), Some("other:x\n"), None),
        Err(TicketError::CurrentDirectoryUnavailable)
    );
}

#[test]
fn text_helpers() {
    assert_eq!(to_chars("aé"), vec!['a', 'é']);
    assert!(str_eq("abc", "abc"));
    assert!(!str_eq("abc", "abd"));
    assert!(!str_eq("abc", "ab"));
    let text = to_chars("a//bc");
    let spans = split_spans(&text, '/');
    let ranges: Vec<(usize, usize)> = spans.iter().map(|s| (s.start, s.end)).collect();
    assert_eq!(ranges, vec![(0, 1), (2, 2), (3, 5)]);
    let text = to_chars(" \t x y \n");
    let span = trim_span(&text);
    assert_eq!((span.start, span.end), (3, 6));
    let text = to_chars("   ");
    let span = trim_span(&text);
    assert_eq!(span.start, span.end);
}

#[test]
fn config_set_replaces_or_adds_and_keeps_the_rest() {
    let mut config = Config::parse("a:1\nproject_name:old\nb:2\n").unwrap();
    config.set("project_name", "new");
    assert_eq!(config.serialize(), "a:1\nproject_name:new\nb:2\n");
    config.set("c", "3");
    assert_eq!(config.serialize(), "a:1\nproject_name:new\nb:2\nc:3\n");
    assert_eq!(config.get("project_name"), Some("new".to_string()));
    assert_eq!(config.get("a"), Some("1".to_string()));
    let mut twice = Config::parse("k:1\nk:2\n").unwrap();
    twice.set("k", "9");
    assert_eq!(twice.serialize(), "k:9\nk:9\n");
}

#[test]
fn config_round_trip() {
    let text = "project_name:demo\nx-unknown:kept\n";
    assert_eq!(Config::parse(text).unwrap().serialize(), text);
    let config = Config { entries: vec![Field::new("project_name", "p"), Field::new("k", "")] };
    assert_eq!(Config::parse(&config.serialize()), Ok(config));
}
