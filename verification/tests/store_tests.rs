use tickets::error::TicketError;
use tickets::listing::list;
use tickets::record::TicketRecord;
use tickets::status::Status;
use tickets::store::ProjectDir;
use tickets::transition::set_status;

fn ticket(id: u32, status: &str, body: &str) -> String {
    format!("ticket:{}\nstatus:{}\n================\n{}\n\n", id, status, body)
}

fn dir_of(files: &[(&str, &str)]) -> ProjectDir {
    let mut dir = ProjectDir::new();
    for (name, contents) in files {
        assert_eq!(dir.add_file(name, contents), Ok(()));
    }
    dir
}

fn strings(names: &[&str]) -> Vec<String> {
    names.iter().map(|name| name.to_string()).collect()
}

#[test]
fn an_empty_directory_gives_id_zero() {
    let dir = ProjectDir::new();
    assert_eq!(dir.len(), 0);
    assert_eq!(dir.next_id(), Ok(0));
}

#[test]
fn next_id_is_one_more_than_the_largest() {
    let dir = dir_of(&[("3", ""), ("10", ""), ("9", "")]);
    assert_eq!(dir.next_id(), Ok(11));
}

#[test]
fn next_id_reads_leading_zeros() {
    let dir = dir_of(&[("007", ""), ("5", "")]);
    assert_eq!(dir.next_id(), Ok(8));
}

#[test]
fn next_id_fails_on_the_first_corrupt_name() {
    let dir = dir_of(&[("1", ""), ("notes.txt", ""), ("2", ""), ("x", "")]);
    assert_eq!(
        dir.next_id(),
        Err(TicketError::CorruptTicketName("notes.txt".to_string()))
    );
}

#[test]
fn next_id_fails_where_the_largest_number_is_in_use() {
    let dir = dir_of(&[("4294967295", "")]);
    assert_eq!(dir.next_id(), Err(TicketError::IdSpaceExhausted));
    let dir = dir_of(&[("4294967294", "")]);
    assert_eq!(dir.next_id(), Ok(4294967295));
}

#[test]
fn add_file_refuses_a_name_that_exists() {
    let mut dir = dir_of(&[("0", "a")]);
    assert_eq!(
        dir.add_file("0", "b"),
        Err(TicketError::TicketAlreadyExists("0".to_string()))
    );
    assert_eq!(dir.len(), 1);
    assert_eq!(dir.read("0"), Some("a".to_string()));
}

#[test]
fn find_and_read_look_files_up_by_name() {
    let dir = dir_of(&[("0", "a"), ("1", "b")]);
    assert_eq!(dir.find("1"), Some(1));
    assert_eq!(dir.find("2"), None);
    assert_eq!(dir.read("1"), Some("b".to_string()));
    assert_eq!(dir.read("01"), None);
    assert_eq!(dir.name_at(0), "0");
    assert_eq!(dir.contents_at(1), "b");
}

#[test]
fn replace_contents_changes_one_file() {
    let mut dir = dir_of(&[("0", "a"), ("1", "b")]);
    dir.replace_contents(0, "c".to_string());
    assert_eq!(dir.read("0"), Some("c".to_string()));
    assert_eq!(dir.read("1"), Some("b".to_string()));
    assert_eq!(dir.name_at(0), "0");
}

#[test]
fn create_counts_up_from_zero() {
    let mut dir = ProjectDir::new();
    for n in 0..12u32 {
        let record = dir.create("body", None, &vec![]).unwrap();
        assert_eq!(record.id(), Some(n));
        assert_eq!(dir.len(), (n + 1) as usize);
        assert_eq!(dir.name_at(n as usize), n.to_string());
        assert_eq!(dir.next_id(), Ok(n + 1));
    }
}

#[test]
fn create_writes_the_serialized_record() {
    let mut dir = dir_of(&[("4", "anything")]);
    let record = dir.create("fix bug", Some("jin"), &vec![]).unwrap();
    assert_eq!(record, TicketRecord::new(5, "fix bug", Some("jin"), &vec![]));
    assert_eq!(
        dir.read("5"),
        Some("ticket:5\nstatus:open\nowner:jin\n================\nfix bug\n\n".to_string())
    );
}

#[test]
fn create_fails_on_a_corrupt_name_and_changes_nothing() {
    let mut dir = dir_of(&[("0", "a"), ("oops", "b")]);
    assert_eq!(
        dir.create("body", None, &vec![]),
        Err(TicketError::CorruptTicketName("oops".to_string()))
    );
    assert_eq!(dir.len(), 2);
}

#[test]
fn list_orders_by_number_not_by_name() {
    let names = ["0", "1", "10", "11", "2", "3", "4", "5", "6", "7", "8", "9"];
    let mut dir = ProjectDir::new();
    for name in names {
        let id: u32 = name.parse().unwrap();
        dir.add_file(name, &ticket(id, "open", name)).unwrap();
    }
    let listing = list(&dir);
    let ids: Vec<u32> = listing.tickets.iter().map(|t| t.id).collect();
    assert_eq!(ids, vec![0, 1, 2, 3, 4, 5, 6, 7, 8, 9, 10, 11]);
    let bodies: Vec<String> = listing.tickets.iter().map(|t| t.record.body()).collect();
    assert_eq!(bodies[10], "10");
    assert_eq!(bodies[2], "2");
    assert!(listing.skipped.is_empty());
}

#[test]
fn list_keeps_the_file_order_of_equal_numbers() {
    let dir = dir_of(&[
        ("2", &ticket(2, "open", "two")),
        ("01", &ticket(1, "open", "first")),
        ("1", &ticket(1, "open", "second")),
    ]);
    let listing = list(&dir);
    let bodies: Vec<String> = listing.tickets.iter().map(|t| t.record.body()).collect();
    assert_eq!(bodies, vec!["first", "second", "two"]);
}

#[test]
fn list_passes_over_a_file_without_delimiter() {
    let dir = dir_of(&[
        ("0", &ticket(0, "open", "good")),
        ("1", "ticket:1\nstatus:open\nno delimiter here\n"),
    ]);
    let listing = list(&dir);
    assert_eq!(listing.tickets.len(), 1);
    assert_eq!(listing.tickets[0].id, 0);
    assert_eq!(listing.tickets[0].record.body(), "good");
    assert_eq!(listing.skipped, strings(&["1"]));
}

#[test]
fn list_passes_over_a_file_with_a_corrupt_name() {
    let dir = dir_of(&[
        ("README", &ticket(9, "open", "x")),
        ("3", &ticket(3, "open", "three")),
    ]);
    let listing = list(&dir);
    assert_eq!(listing.tickets.len(), 1);
    assert_eq!(listing.tickets[0].id, 3);
    assert_eq!(listing.skipped, strings(&["README"]));
}

#[test]
fn set_status_rewrites_the_named_tickets() {
    let mut dir = dir_of(&[
        ("0", &ticket(0, "open", "a")),
        ("1", &ticket(1, "open", "b")),
        ("2", &ticket(2, "open", "c")),
    ]);
    let report = set_status(&mut dir, &strings(&["2", "0"]), Status::Closed);
    assert_eq!(report.updated, strings(&["2", "0"]));
    assert!(report.failed.is_empty());
    assert_eq!(report.count(), 2);
    assert_eq!(report.exit_code(), 0);
    assert_eq!(dir.read("0"), Some(ticket(0, "closed", "a")));
    assert_eq!(dir.read("1"), Some(ticket(1, "open", "b")));
    assert_eq!(dir.read("2"), Some(ticket(2, "closed", "c")));
}

#[test]
fn set_status_goes_on_after_a_failure() {
    let mut dir = dir_of(&[
        ("0", &ticket(0, "open", "a")),
        ("1", "no delimiter"),
        ("2", "ticket:2\n====\nno status\n\n"),
    ]);
    let report = set_status(&mut dir, &strings(&["7", "1", "0", "2"]), Status::Complete);
    assert_eq!(report.updated, strings(&["0"]));
    assert_eq!(report.failed.len(), 3);
    assert_eq!(report.failed[0].id, "7");
    assert_eq!(report.failed[0].error, TicketError::TicketNotFound("7".to_string()));
    assert_eq!(report.failed[1].id, "1");
    assert_eq!(report.failed[1].error, TicketError::MalformedHeader);
    assert_eq!(report.failed[2].id, "2");
    assert_eq!(report.failed[2].error, TicketError::MalformedHeader);
    assert_eq!(report.exit_code(), 0);
    assert_eq!(dir.read("0"), Some(ticket(0, "complete", "a")));
    assert_eq!(dir.read("1"), Some("no delimiter".to_string()));
}

#[test]
fn set_status_counts_a_repeated_name_once() {
    let mut dir = dir_of(&[("0", &ticket(0, "open", "a"))]);
    let report = set_status(&mut dir, &strings(&["0", "9", "0", "9"]), Status::Closed);
    assert_eq!(report.updated, strings(&["0"]));
    assert_eq!(report.failed.len(), 1);
    assert_eq!(report.count(), 1);
}

#[test]
fn set_status_fails_with_exit_code_one_where_nothing_was_changed() {
    let mut dir = ProjectDir::new();
    let report = set_status(&mut dir, &strings(&["0"]), Status::Closed);
    assert_eq!(report.count(), 0);
    assert_eq!(report.exit_code(), 1);
    let report = set_status(&mut dir, &vec![], Status::Closed);
    assert_eq!(report.exit_code(), 0);
}

#[test]
fn set_status_twice_leaves_the_files_byte_identical() {
    let mut dir = dir_of(&[
        ("0", "ticket:0\nstatus:open\nx-k:v\n=====\n\nodd body\n"),
        ("1", &ticket(1, "in_progress", "b")),
        ("2", "broken"),
    ]);
    let ids = strings(&["0", "1", "2", "3"]);
    set_status(&mut dir, &ids, Status::Closed);
    let first: Vec<String> = (0..dir.len()).map(|i| dir.contents_at(i)).collect();
    assert_eq!(first[0], "ticket:0\nstatus:closed\nx-k:v\n=====\n\nodd body\n");
    let report = set_status(&mut dir, &ids, Status::Closed);
    let second: Vec<String> = (0..dir.len()).map(|i| dir.contents_at(i)).collect();
    assert_eq!(second, first);
    assert_eq!(report.updated, strings(&["0", "1"]));
}

#[test]
fn open_for_edit_needs_the_file() {
    let dir = dir_of(&[("0", "a")]);
    assert_eq!(dir.open_for_edit("0").unwrap().name, "0");
    assert_eq!(
        dir.open_for_edit("1"),
        Err(TicketError::TicketNotFound("1".to_string()))
    );
}
