//! Changing a ticket's status in its text: the `status` lines of the
//! header are written anew, every other line stays as it is.

use vstd::prelude::*;
use vstd::string::*;
use crate::error::TicketError;
use crate::record::{
    delimiter_test, field_line, is_delimiter_span, key_status, lemma_field_line, lemma_keys,
    lemma_with_value_lookup, lookup, parse_text, split_field, with_value, RecordView,
    TicketRecord,
};
use crate::status::{lemma_status_names, Status};
use crate::text::{
    chars_eq, cut, find_char, first_index, first_match, join, lemma_first_index,
    lemma_first_match, lemma_first_match_is, lemma_join_push, lemma_split_join,
    lemma_split_pieces, line_spans, spans_are_pieces, split, to_chars,
};

verus! {

/// The key of a header line: what stands before its first `:`.
pub open spec fn line_key(line: Seq<char>) -> Seq<char> {
    split_field(line).0
}

/// The header line that gives a ticket that status.
pub open spec fn status_line(status: Status) -> Seq<char> {
    field_line((key_status(), status.name()))
}

/// The lines of a ticket with the status written anew: each of the first
/// `header` lines whose key is `status` becomes the line for the new status.
pub open spec fn rewritten_lines(lines: Seq<Seq<char>>, header: int, status: Status) -> Seq<
    Seq<char>,
> {
    Seq::new(
        lines.len(),
        |k: int|
            if k < header && line_key(lines[k]) == key_status() {
                status_line(status)
            } else {
                lines[k]
            },
    )
}

/// A ticket's text with the status written anew, or `None` where the text
/// is malformed or its header has no `status` line.
pub open spec fn rewrite_text(raw: Seq<char>, status: Status) -> Option<Seq<char>> {
    let lines = split(raw, '\n');
    let header = first_match(lines, delimiter_test());
    match parse_text(raw) {
        Some(record) => if record.status() is Some {
            Some(join(rewritten_lines(lines, header, status), '\n'))
        } else {
            None
        },
        None => None,
    }
}

/// The fields of a ticket with every `status` field given the new value.
pub open spec fn with_status(fields: Seq<(Seq<char>, Seq<char>)>, status: Status) -> Seq<
    (Seq<char>, Seq<char>),
> {
    with_value(fields, key_status(), status.name())
}

/// What holds of the rewritten lines of a well-formed ticket that has a
/// status: they are the lines of the new text, the header is as long as
/// before, and writing the same status once more changes nothing.
proof fn lemma_rewritten(raw: Seq<char>, status: Status)
    requires
        rewrite_text(raw, status) is Some,
    ensures
        ({
            let lines = split(raw, '\n');
            let header = first_match(lines, delimiter_test());
            let new_lines = rewritten_lines(lines, header, status);
            let new_raw = rewrite_text(raw, status)->0;
            &&& 0 <= header < lines.len()
            &&& split(new_raw, '\n') == new_lines
            &&& first_match(new_lines, delimiter_test()) == header
            &&& rewritten_lines(new_lines, header, status) == new_lines
            &&& forall|k: int| 0 <= k < header ==> (#[trigger] new_lines[k]).contains(':')
            &&& forall|k: int|
                0 <= k < header ==> split_field(#[trigger] new_lines[k]) == with_status(
                    parse_text(raw)->0.fields,
                    status,
                )[k]
            &&& new_lines.skip(header + 1) == lines.skip(header + 1)
        }),
{
    lemma_keys();
    lemma_status_names(status, status);
    let lines = split(raw, '\n');
    let test = delimiter_test();
    let header = first_match(lines, test);
    let new_lines = rewritten_lines(lines, header, status);
    let new_raw = join(new_lines, '\n');
    let fields = parse_text(raw)->0.fields;
    lemma_first_match(lines, test);
    lemma_split_pieces(raw, '\n');
    lemma_field_line((key_status(), status.name()));
    assert forall|k: int| 0 <= k < new_lines.len() implies !(#[trigger] new_lines[k]).contains(
        '\n',
    ) by {
        assert(!lines[k].contains('\n'));
    }
    lemma_split_join(new_lines, '\n');
    assert forall|k: int| 0 <= k < header implies !test(new_lines[k]) by {
        assert(!test(lines[k]));
    }
    assert(new_lines[header] == lines[header]);
    assert(test(lines[header]));
    lemma_first_match_is(new_lines, test, header);
    assert forall|k: int| 0 <= k < header implies (#[trigger] new_lines[k]).contains(':')
        && split_field(new_lines[k]) == with_status(fields, status)[k] && line_key(new_lines[k])
        == key_status() <==> line_key(lines[k]) == key_status() by {
        assert(lines[k].contains(':'));
        assert(fields[k] == split_field(lines[k]));
    }
    assert(rewritten_lines(new_lines, header, status) =~= new_lines);
    assert(new_lines.skip(header + 1) =~= lines.skip(header + 1));
}

/// Writing a status anew gives a well-formed ticket with that status:
/// every `status` field holds the new value, every other field and the body
/// are as before.
pub proof fn lemma_rewrite_parses(raw: Seq<char>, status: Status)
    requires
        rewrite_text(raw, status) is Some,
    ensures
        parse_text(rewrite_text(raw, status)->0) == Some(
            RecordView {
                fields: with_status(parse_text(raw)->0.fields, status),
                body: parse_text(raw)->0.body,
            },
        ),
        parse_text(rewrite_text(raw, status)->0)->0.status() == Some(status.name()),
        forall|key: Seq<char>|
            key != key_status() ==> lookup(
                #[trigger] parse_text(rewrite_text(raw, status)->0)->0.fields,
                key,
            ) == lookup(parse_text(raw)->0.fields, key),
{
    lemma_rewritten(raw, status);
    let lines = split(raw, '\n');
    let header = first_match(lines, delimiter_test());
    let new_lines = rewritten_lines(lines, header, status);
    let fields = parse_text(raw)->0.fields;
    let new_fields = with_status(fields, status);
    assert(Seq::new(header as nat, |k: int| split_field(new_lines[k])) =~= new_fields);
    lemma_with_value_lookup(fields, key_status(), status.name());
}

/// Writing the same status a second time changes nothing.
pub proof fn lemma_rewrite_idempotent(raw: Seq<char>, status: Status)
    requires
        rewrite_text(raw, status) is Some,
    ensures
        rewrite_text(rewrite_text(raw, status)->0, status) == rewrite_text(raw, status),
{
    lemma_rewritten(raw, status);
    lemma_rewrite_parses(raw, status);
}

/// Writing a status anew leaves every line as it is but the `status` lines
/// of the header, and leaves the number of lines as it is.
pub proof fn lemma_rewrite_keeps_lines(raw: Seq<char>, status: Status, k: int)
    requires
        rewrite_text(raw, status) is Some,
        0 <= k < split(raw, '\n').len(),
    ensures
        split(rewrite_text(raw, status)->0, '\n').len() == split(raw, '\n').len(),
        !(k < first_match(split(raw, '\n'), delimiter_test()) && line_key(split(raw, '\n')[k])
            == key_status()) ==> split(rewrite_text(raw, status)->0, '\n')[k] == split(
            raw,
            '\n',
        )[k],
{
    lemma_rewritten(raw, status);
}

/// The ticket text `raw` with its status set to `status`. Only the header
/// lines with the key `status` change. Fails where the text is malformed or
/// its header has no such line.
pub fn rewrite_status(raw: &str, status: Status) -> (result: Result<String, TicketError>)
    ensures
        match result {
            Ok(text) => rewrite_text(raw@, status) == Some(text@),
            Err(e) => e == TicketError::MalformedHeader && rewrite_text(raw@, status) is None,
        },
{
    let record = match TicketRecord::parse(raw) {
        Ok(record) => record,
        Err(_) => {
            return Err(TicketError::MalformedHeader);
        },
    };
    if record.status().is_none() {
        return Err(TicketError::MalformedHeader);
    }
    let text = to_chars(raw);
    let spans = line_spans(&text);
    let key = to_chars("status");
    let ghost lines = split(raw@, '\n');
    let ghost test = delimiter_test();
    let ghost header = first_match(lines, test);
    let ghost new_lines = rewritten_lines(lines, header, status);
    proof {
        lemma_first_match(lines, test);
        reveal_strlit("\n");
        reveal_strlit(":");
    }
    let mut out = String::new();
    let mut in_header = true;
    let mut k: usize = 0;
    while k < spans.len()
        invariant
            k <= spans.len(),
            text@ == raw@,
            key@ == key_status(),
            lines == split(raw@, '\n'),
            test == delimiter_test(),
            header == first_match(lines, test),
            0 <= header < lines.len(),
            forall|j: int| 0 <= j < header ==> (#[trigger] lines[j]).contains(':'),
            new_lines == rewritten_lines(lines, header, status),
            spans_are_pieces(spans@, text@, '\n'),
            in_header <==> k <= header,
            out@ == join(new_lines.take(k as int), '\n'),
            "\n"@ == seq!['\n'],
            ":"@ == seq![':'],
        decreases spans.len() - k,
    {
        let span = spans[k];
        let ghost line = lines[k as int];
        assert(line == text@.subrange(span.start as int, span.end as int));
        if k > 0 {
            out.append("\n");
        }
        let mut is_status = false;
        proof {
            lemma_first_match(lines, test);
        }
        if in_header {
            if is_delimiter_span(&text, span.start, span.end) {
                proof {
                    assert(test(line));
                    assert(k == header);
                }
                in_header = false;
            } else {
                proof {
                    assert(!test(line));
                    assert(k < header);
                }
                let colon = find_char(&text, span.start, span.end, ':');
                proof {
                    lemma_first_index(line, ':');
                    let i = first_index(line, ':');
                    assert(line.take(i) =~= text@.subrange(span.start as int, colon as int));
                }
                is_status = chars_eq(&text, span.start, colon, &key);
            }
        }
        if is_status {
            assert(new_lines[k as int] == status_line(status));
            out.append("status");
            out.append(":");
            out.append(status.as_str());
        } else {
            assert(new_lines[k as int] == line);
            let piece = cut(raw, span.start, span.end);
            out.append(piece.as_str());
        }
        proof {
            lemma_join_push(new_lines.take(k as int), new_lines[k as int], '\n');
            assert(new_lines.take(k + 1) =~= new_lines.take(k as int).push(new_lines[k as int]));
            assert(out@ =~= join(new_lines.take(k + 1), '\n'));
        }
        k += 1;
    }
    assert(new_lines.take(k as int) =~= new_lines);
    Ok(out)
}

} // verus!
