use tickets::error::TicketError;
use tickets::ident::{id_text, parse_id};
use tickets::record::{Field, TicketRecord};
use tickets::rewrite::rewrite_status;
use tickets::status::Status;

const CANONICAL: &str = "ticket:0\nstatus:open\n================\nfix bug\n\n";

#[test]
fn parse_reads_header_and_body() {
    let record = TicketRecord::parse(CANONICAL).unwrap();
    assert_eq!(record.fields.len(), 2);
    assert_eq!(record.fields[0], Field::new("ticket", "0"));
    assert_eq!(record.fields[1], Field::new("status", "open"));
    assert_eq!(record.body, "fix bug");
    assert_eq!(record.id(), Some(0));
    assert_eq!(record.status(), Some("open".to_string()));
    assert_eq!(record.owner(), None);
    assert_eq!(record.body(), "fix bug");
}

#[test]
fn parse_splits_a_header_line_at_its_first_colon() {
    let record = TicketRecord::parse("url:http://x:80\n=\n").unwrap();
    assert_eq!(record.fields[0], Field::new("url", "http://x:80"));
    assert_eq!(record.body, "");
}

#[test]
fn parse_takes_any_run_of_equals_as_delimiter() {
    let record = TicketRecord::parse("ticket:7\n===\nbody").unwrap();
    assert_eq!(record.id(), Some(7));
    assert_eq!(record.body, "body");
}

#[test]
fn parse_splits_at_the_first_delimiter_only() {
    let record = TicketRecord::parse("ticket:1\n====\nabove\n====\nbelow\n\n").unwrap();
    assert_eq!(record.fields.len(), 1);
    assert_eq!(record.body, "above\n====\nbelow");
}

#[test]
fn parse_drops_one_leading_blank_line_of_the_body() {
    let record = TicketRecord::parse("ticket:1\n====\n\nbody\n\n").unwrap();
    assert_eq!(record.body, "body");
    let record = TicketRecord::parse("ticket:1\n====\n\n\nbody").unwrap();
    assert_eq!(record.body, "\nbody");
}

#[test]
fn parse_keeps_a_body_that_ends_without_a_blank_line() {
    let record = TicketRecord::parse("ticket:1\n====\nbody\n").unwrap();
    assert_eq!(record.body, "body\n");
}

#[test]
fn parse_fails_without_a_delimiter_line() {
    assert_eq!(
        TicketRecord::parse("ticket:0\nstatus:open\nfix bug\n"),
        Err(TicketError::MalformedHeader)
    );
    assert_eq!(TicketRecord::parse(""), Err(TicketError::MalformedHeader));
}

#[test]
fn parse_fails_on_a_header_line_without_a_colon() {
    assert_eq!(
        TicketRecord::parse("ticket:0\nnonsense\n====\nbody\n\n"),
        Err(TicketError::MalformedHeader)
    );
    assert_eq!(
        TicketRecord::parse("ticket:0\n\n====\nbody\n\n"),
        Err(TicketError::MalformedHeader)
    );
}

#[test]
fn parse_does_not_take_a_line_with_other_characters_as_delimiter() {
    assert_eq!(
        TicketRecord::parse("ticket:0\n==== \nbody"),
        Err(TicketError::MalformedHeader)
    );
}

#[test]
fn field_gives_the_last_value_of_a_key() {
    let record = TicketRecord::parse("status:open\nstatus:closed\n===\n").unwrap();
    assert_eq!(record.status(), Some("closed".to_string()));
    assert_eq!(record.field("status"), Some("closed".to_string()));
    assert_eq!(record.field("missing"), None);
}

#[test]
fn id_is_none_where_the_ticket_field_is_no_number() {
    let record = TicketRecord::parse("ticket:abc\n===\n").unwrap();
    assert_eq!(record.id(), None);
    let record = TicketRecord::parse("status:open\n===\n").unwrap();
    assert_eq!(record.id(), None);
}

#[test]
fn serialize_writes_the_canonical_form() {
    let record = TicketRecord::new(0, "fix bug", None, &vec![]);
    assert_eq!(record.serialize(), CANONICAL);
}

#[test]
fn serialize_writes_owner_and_further_fields() {
    let extra = vec![Field::new("priority", "high")];
    let record = TicketRecord::new(12, "body", Some("jin"), &extra);
    assert_eq!(
        record.serialize(),
        "ticket:12\nstatus:open\nowner:jin\npriority:high\n================\nbody\n\n"
    );
}

#[test]
fn serialize_puts_the_leading_keys_first() {
    let record = TicketRecord {
        fields: vec![
            Field::new("priority", "low"),
            Field::new("owner", "ann"),
            Field::new("status", "closed"),
            Field::new("ticket", "3"),
            Field::new("tag", "x"),
        ],
        body: "b".to_string(),
    };
    assert_eq!(
        record.serialize(),
        "ticket:3\nstatus:closed\nowner:ann\npriority:low\ntag:x\n================\nb\n\n"
    );
}

#[test]
fn round_trip_keeps_id_status_owner_and_body() {
    let extra = vec![Field::new("priority", "high"), Field::new("x-future", "a:b")];
    let record = TicketRecord::new(41, "line one\nline two", Some("jin"), &extra);
    let read = TicketRecord::parse(&record.serialize()).unwrap();
    assert_eq!(read, record);
    assert_eq!(read.id(), Some(41));
    assert_eq!(read.status(), Some("open".to_string()));
    assert_eq!(read.owner(), Some("jin".to_string()));
    assert_eq!(read.body(), "line one\nline two");
}

#[test]
fn round_trip_keeps_an_empty_body() {
    let record = TicketRecord::new(5, "", None, &vec![]);
    assert_eq!(record.serialize(), "ticket:5\nstatus:open\n================\n\n\n");
    let read = TicketRecord::parse(&record.serialize()).unwrap();
    assert_eq!(read, record);
}

#[test]
fn round_trip_keeps_a_body_that_holds_delimiter_lines_and_non_ascii() {
    let record = TicketRecord::new(2, "über\n=====\nénd", None, &vec![]);
    let read = TicketRecord::parse(&record.serialize()).unwrap();
    assert_eq!(read, record);
}

#[test]
fn serialize_is_left_inverse_of_parse_on_canonical_text() {
    let record = TicketRecord::parse(CANONICAL).unwrap();
    assert_eq!(record.serialize(), CANONICAL);
}

#[test]
fn a_body_that_begins_with_a_newline_loses_it() {
    let record = TicketRecord::new(1, "\nbody", None, &vec![]);
    let read = TicketRecord::parse(&record.serialize()).unwrap();
    assert_eq!(read.body, "body");
}

#[test]
fn parse_id_reads_decimal_digits() {
    assert_eq!(parse_id("0"), Some(0));
    assert_eq!(parse_id("10"), Some(10));
    assert_eq!(parse_id("007"), Some(7));
    assert_eq!(parse_id("4294967295"), Some(4294967295));
}

#[test]
fn parse_id_rejects_what_is_no_ticket_number() {
    assert_eq!(parse_id(""), None);
    assert_eq!(parse_id("abc"), None);
    assert_eq!(parse_id("12a"), None);
    assert_eq!(parse_id("-1"), None);
    assert_eq!(parse_id("+5"), None);
    assert_eq!(parse_id(" 5"), None);
    assert_eq!(parse_id("4294967296"), None);
    assert_eq!(parse_id("99999999999999999999"), None);
    assert_eq!(parse_id("٣"), None);
}

#[test]
fn id_text_writes_decimal_digits() {
    assert_eq!(id_text(0), "0");
    assert_eq!(id_text(9), "9");
    assert_eq!(id_text(10), "10");
    assert_eq!(id_text(1203), "1203");
    assert_eq!(id_text(4294967295), "4294967295");
    assert_eq!(parse_id(&id_text(987654)), Some(987654));
}

#[test]
fn status_names() {
    assert_eq!(Status::Open.as_str(), "open");
    assert_eq!(Status::InProgress.as_str(), "in_progress");
    assert_eq!(Status::Closed.as_str(), "closed");
    assert_eq!(Status::Complete.as_str(), "complete");
    assert_eq!(Status::from_name("in_progress"), Some(Status::InProgress));
    assert_eq!(Status::from_name("closed"), Some(Status::Closed));
    assert_eq!(Status::from_name("Open"), None);
    assert_eq!(Status::from_name("done"), None);
}

#[test]
fn rewrite_changes_only_the_status_line() {
    let text = "ticket:0\nstatus:open\nowner:jin\n================\nfix bug\nstatus:open\n\n";
    assert_eq!(
        rewrite_status(text, Status::InProgress),
        Ok("ticket:0\nstatus:in_progress\nowner:jin\n================\nfix bug\nstatus:open\n\n"
            .to_string())
    );
}

#[test]
fn rewrite_keeps_an_unusual_file_byte_for_byte() {
    let text = "x-future:1\nstatus:open and more\n===\n\nbody without final newline";
    assert_eq!(
        rewrite_status(text, Status::Closed),
        Ok("x-future:1\nstatus:closed\n===\n\nbody without final newline".to_string())
    );
}

#[test]
fn rewrite_changes_every_status_line_of_the_header() {
    let text = "status:open\nticket:1\nstatus:started\n==\n";
    assert_eq!(
        rewrite_status(text, Status::Complete),
        Ok("status:complete\nticket:1\nstatus:complete\n==\n".to_string())
    );
}

#[test]
fn rewrite_is_idempotent() {
    let once = rewrite_status(CANONICAL, Status::Closed).unwrap();
    let twice = rewrite_status(&once, Status::Closed).unwrap();
    assert_eq!(once, "ticket:0\nstatus:closed\n================\nfix bug\n\n");
    assert_eq!(twice, once);
}

#[test]
fn rewrite_fails_on_malformed_text_or_missing_status() {
    assert_eq!(
        rewrite_status("status:open\nbody", Status::Closed),
        Err(TicketError::MalformedHeader)
    );
    assert_eq!(
        rewrite_status("ticket:1\n====\nstatus:open\n", Status::Closed),
        Err(TicketError::MalformedHeader)
    );
    assert_eq!(
        rewrite_status("statuses:open\n====\n", Status::Closed),
        Err(TicketError::MalformedHeader)
    );
}

#[test]
fn known_status_reads_the_four_statuses() {
    let record = TicketRecord::parse("status:in_progress\n==\n").unwrap();
    assert_eq!(record.known_status(), Some(Status::InProgress));
    let record = TicketRecord::parse("status:waiting\n==\n").unwrap();
    assert_eq!(record.known_status(), None);
    let record = TicketRecord::parse("ticket:1\n==\n").unwrap();
    assert_eq!(record.known_status(), None);
}
