//! A ticket in memory and its text form: header lines `key:value`, a
//! delimiter line of `=` characters, then the body.

use vstd::prelude::*;
use vstd::string::*;
use crate::error::TicketError;
use crate::ident::ticket_id;
use crate::ident::{decimal_text, id_text, parse_id};
use crate::status::Status;
use crate::text::{
    cut, find_char, first_index, first_match, join, lemma_first_index, lemma_first_match,
    lemma_first_match_is, line_spans, spans_are_pieces, split, str_eq, to_chars,
};

verus! {

/// One header line: a key and its value.
#[derive(Clone, Debug, PartialEq, Eq)]
pub struct Field {
    pub key: String,
    pub value: String,
}

impl View for Field {
    type V = (Seq<char>, Seq<char>);

    open spec fn view(&self) -> (Seq<char>, Seq<char>) {
        (self.key@, self.value@)
    }
}

/// A ticket as mathematics: its header fields in order, and its body.
pub struct RecordView {
    pub fields: Seq<(Seq<char>, Seq<char>)>,
    pub body: Seq<char>,
}

/// A ticket: its header fields in the order they stand in, and its body.
/// Keys that this library does not know are kept as they are.
#[derive(Clone, Debug, PartialEq, Eq)]
pub struct TicketRecord {
    pub fields: Vec<Field>,
    pub body: String,
}

/// The fields of a vector, each as a pair of texts.
pub open spec fn fields_view(fields: Seq<Field>) -> Seq<(Seq<char>, Seq<char>)> {
    Seq::new(fields.len(), |i: int| fields[i]@)
}

impl View for TicketRecord {
    type V = RecordView;

    open spec fn view(&self) -> RecordView {
        RecordView { fields: fields_view(self.fields@), body: self.body@ }
    }
}

/// The key of the header line that holds a ticket's number.
pub open spec fn key_ticket() -> Seq<char> {
    "ticket"@
}

/// The key of the header line that holds a ticket's status.
pub open spec fn key_status() -> Seq<char> {
    "status"@
}

/// The key of the header line that holds a ticket's owner.
pub open spec fn key_owner() -> Seq<char> {
    "owner"@
}

/// The delimiter line that `serialize` writes: sixteen `=`.
pub open spec fn delimiter() -> Seq<char> {
    "================"@
}

/// A delimiter line is one or more `=` and nothing else.
pub open spec fn is_delimiter(line: Seq<char>) -> bool {
    line.len() > 0 && forall|i: int| 0 <= i < line.len() ==> line[i] == '='
}

/// The test "is this line a delimiter".
pub open spec fn delimiter_test() -> spec_fn(Seq<char>) -> bool {
    |line: Seq<char>| is_delimiter(line)
}

/// A header line taken apart at its first `:`.
pub open spec fn split_field(line: Seq<char>) -> (Seq<char>, Seq<char>) {
    let i = first_index(line, ':');
    (line.take(i), line.skip(i + 1))
}

/// A header line put together.
pub open spec fn field_line(field: (Seq<char>, Seq<char>)) -> Seq<char> {
    field.0 + seq![':'] + field.1
}

/// The text after the delimiter line, as a body: a blank line at the end
/// (two newlines) is dropped, then one newline at the start.
pub open spec fn body_text(rest: Seq<char>) -> Seq<char> {
    let n = rest.len() as int;
    let t = if n >= 2 && rest[n - 1] == '\n' && rest[n - 2] == '\n' {
        rest.take(n - 2)
    } else {
        rest
    };
    if t.len() > 0 && t[0] == '\n' {
        t.skip(1)
    } else {
        t
    }
}

/// What a ticket's text means, or `None` where it is malformed: where no
/// line is a delimiter, or a line before the first delimiter has no `:`.
pub open spec fn parse_text(raw: Seq<char>) -> Option<RecordView> {
    let lines = split(raw, '\n');
    let d = first_match(lines, delimiter_test());
    if d < lines.len() && (forall|k: int| 0 <= k < d ==> (#[trigger] lines[k]).contains(':')) {
        Some(
            RecordView {
                fields: Seq::new(d as nat, |k: int| split_field(lines[k])),
                body: body_text(join(lines.skip(d + 1), '\n')),
            },
        )
    } else {
        None
    }
}

/// The value of the last field with that key, if there is one.
pub open spec fn lookup(fields: Seq<(Seq<char>, Seq<char>)>, key: Seq<char>) -> Option<Seq<char>>
    decreases fields.len(),
{
    if fields.len() == 0 {
        None
    } else if fields.last().0 == key {
        Some(fields.last().1)
    } else {
        lookup(fields.drop_last(), key)
    }
}

/// Whether a key is one of the three that `serialize` writes first.
pub open spec fn is_leading_key(key: Seq<char>) -> bool {
    key == key_ticket() || key == key_status() || key == key_owner()
}

/// The field with that key as `serialize` writes it: once, with the value
/// that `lookup` gives, or not at all.
pub open spec fn leading(fields: Seq<(Seq<char>, Seq<char>)>, key: Seq<char>) -> Seq<
    (Seq<char>, Seq<char>),
> {
    match lookup(fields, key) {
        Some(value) => seq![(key, value)],
        None => Seq::empty(),
    }
}

/// The fields whose keys are none of the three leading ones, in order.
pub open spec fn other_fields(fields: Seq<(Seq<char>, Seq<char>)>) -> Seq<(Seq<char>, Seq<char>)>
    decreases fields.len(),
{
    if fields.len() == 0 {
        Seq::empty()
    } else if is_leading_key(fields.last().0) {
        other_fields(fields.drop_last())
    } else {
        other_fields(fields.drop_last()).push(fields.last())
    }
}

/// The fields in the order `serialize` writes them: `ticket`, `status`,
/// `owner`, each if present, then the others in the order they stand in.
pub open spec fn canonical(fields: Seq<(Seq<char>, Seq<char>)>) -> Seq<(Seq<char>, Seq<char>)> {
    leading(fields, key_ticket()) + leading(fields, key_status()) + leading(fields, key_owner())
        + other_fields(fields)
}

/// Header lines as text, each ended by a newline.
pub open spec fn header_text(fields: Seq<(Seq<char>, Seq<char>)>) -> Seq<char>
    decreases fields.len(),
{
    if fields.len() == 0 {
        Seq::empty()
    } else {
        header_text(fields.drop_last()) + field_line(fields.last()) + seq!['\n']
    }
}

/// A ticket's text: the header lines in canonical order, the delimiter
/// line, the body, and a blank line.
pub open spec fn serialize_text(r: RecordView) -> Seq<char> {
    header_text(canonical(r.fields)) + delimiter() + seq!['\n'] + r.body + seq!['\n', '\n']
}

impl RecordView {
    /// The ticket's number: what the `ticket` field names, if it names one.
    pub open spec fn id(self) -> Option<u32> {
        match lookup(self.fields, key_ticket()) {
            Some(value) => ticket_id(value),
            None => None,
        }
    }

    /// The value of the `status` field.
    pub open spec fn status(self) -> Option<Seq<char>> {
        lookup(self.fields, key_status())
    }

    /// The value of the `owner` field.
    pub open spec fn owner(self) -> Option<Seq<char>> {
        lookup(self.fields, key_owner())
    }
}

/// Whether the characters of `text` in `start..end` form a delimiter line.
pub fn is_delimiter_span(text: &Vec<char>, start: usize, end: usize) -> (yes: bool)
    requires
        start <= end <= text.len(),
    ensures
        yes == is_delimiter(text@.subrange(start as int, end as int)),
{
    let ghost line = text@.subrange(start as int, end as int);
    if start == end {
        return false;
    }
    let mut i: usize = start;
    while i < end
        invariant
            start <= i <= end <= text.len(),
            line == text@.subrange(start as int, end as int),
            forall|j: int| 0 <= j < i - start ==> line[j] == '=',
        decreases end - i,
    {
        if text[i] != '=' {
            assert(line[i - start] != '=');
            return false;
        }
        i += 1;
    }
    true
}

impl TicketRecord {
    /// Reads a ticket from its text. The header is what stands before the
    /// first delimiter line; the body is what stands after it, without the
    /// blank line at its end and without one newline at its start.
    pub fn parse(raw: &str) -> (result: Result<TicketRecord, TicketError>)
        ensures
            match result {
                Ok(record) => parse_text(raw@) == Some(record@),
                Err(e) => e == TicketError::MalformedHeader && parse_text(raw@) is None,
            },
    {
        let text = to_chars(raw);
        let spans = line_spans(&text);
        let ghost lines = split(raw@, '\n');
        let total = text.len();
        let mut fields: Vec<Field> = Vec::new();
        let mut k: usize = 0;
        while k < spans.len()
            invariant
                k <= spans.len(),
                text@ == raw@,
                total == text.len(),
                lines == split(raw@, '\n'),
                spans_are_pieces(spans@, text@, '\n'),
                fields.len() == k,
                forall|j: int| 0 <= j < k ==> !is_delimiter(#[trigger] lines[j]),
                forall|j: int| 0 <= j < k ==> (#[trigger] lines[j]).contains(':'),
                forall|j: int| 0 <= j < k ==> (#[trigger] fields[j])@ == split_field(lines[j]),
            decreases spans.len() - k,
        {
            let span = spans[k];
            let ghost line = lines[k as int];
            assert(line == text@.subrange(span.start as int, span.end as int));
            if is_delimiter_span(&text, span.start, span.end) {
                proof {
                    let test = delimiter_test();
                    assert forall|j: int| 0 <= j < k implies !test(lines[j]) by {
                        assert(!is_delimiter(lines[j]));
                    }
                    assert(test(lines[k as int]));
                    lemma_first_match_is(lines, test, k as int);
                }
                let ghost rest = join(lines.skip(k + 1), '\n');
                let mut from: usize = total;
                if k + 1 < spans.len() {
                    from = span.end + 1;
                } else {
                    assert(lines.skip(k + 1) =~= Seq::<Seq<char>>::empty());
                }
                assert(rest =~= text@.subrange(from as int, total as int));
                let mut to: usize = total;
                if to - from >= 2 && text[to - 1] == '\n' && text[to - 2] == '\n' {
                    to = to - 2;
                }
                if to > from && text[from] == '\n' {
                    from = from + 1;
                }
                assert(body_text(rest) =~= text@.subrange(from as int, to as int));
                let body = cut(raw, from, to);
                let record = TicketRecord { fields, body };
                assert(record@.fields =~= Seq::new(k as nat, |j: int| split_field(lines[j])));
                return Ok(record);
            }
            let colon = find_char(&text, span.start, span.end, ':');
            proof {
                lemma_first_index(line, ':');
            }
            if colon == span.end {
                proof {
                    let test = delimiter_test();
                    lemma_first_match(lines, test);
                    let d = first_match(lines, test);
                    if d < lines.len() {
                        assert(test(lines[d]));
                        assert(d > k);
                    }
                }
                return Err(TicketError::MalformedHeader);
            }
            let key = cut(raw, span.start, colon);
            let value = cut(raw, colon + 1, span.end);
            proof {
                let i = first_index(line, ':');
                assert(line.take(i) =~= raw@.subrange(span.start as int, colon as int));
                assert(line.skip(i + 1) =~= raw@.subrange(colon + 1, span.end as int));
            }
            fields.push(Field { key, value });
            k += 1;
        }
        proof {
            let test = delimiter_test();
            lemma_first_match(lines, test);
            let d = first_match(lines, test);
            if d < lines.len() {
                assert(test(lines[d]));
            }
        }
        Err(TicketError::MalformedHeader)
    }
}


/// Whether fields can stand in a header and be read back: no key holds a
/// `:` or a newline, and no value holds a newline.
pub open spec fn storable_fields(fields: Seq<(Seq<char>, Seq<char>)>) -> bool {
    forall|i: int|
        0 <= i < fields.len() ==> {
            &&& !(#[trigger] fields[i]).0.contains(':')
            &&& !fields[i].0.contains('\n')
            &&& !fields[i].1.contains('\n')
        }
}

/// Whether a ticket can be written and read back unchanged: its fields are
/// storable and its body does not begin with a newline.
pub open spec fn storable(r: RecordView) -> bool {
    storable_fields(r.fields) && !(r.body.len() > 0 && r.body[0] == '\n')
}

/// The fields of a new ticket: its number, the status `open`, the owner if
/// there is one, then the further fields.
pub open spec fn new_record(
    id: u32,
    body: Seq<char>,
    owner: Option<Seq<char>>,
    extra: Seq<(Seq<char>, Seq<char>)>,
) -> RecordView {
    let owner_field = match owner {
        Some(name) => seq![(key_owner(), name)],
        None => Seq::empty(),
    };
    RecordView {
        fields: seq![
            (key_ticket(), decimal_text(id as nat)),
            (key_status(), Status::Open.name()),
        ] + owner_field + extra,
        body,
    }
}

/// What the three leading keys and the delimiter are made of.
pub proof fn lemma_keys()
    ensures
        key_ticket() != key_status(),
        key_ticket() != key_owner(),
        key_status() != key_owner(),
        !key_ticket().contains(':') && !key_ticket().contains('\n'),
        !key_status().contains(':') && !key_status().contains('\n'),
        !key_owner().contains(':') && !key_owner().contains('\n'),
        is_delimiter(delimiter()),
        !delimiter().contains('\n'),
{
    reveal_strlit("ticket");
    reveal_strlit("status");
    reveal_strlit("owner");
    reveal_strlit("================");
    assert(key_ticket()[0] != key_status()[0]);
    assert(key_ticket().len() != key_owner().len());
    assert(key_status().len() != key_owner().len());
    let t = key_ticket();
    let u = key_status();
    let o = key_owner();
    let d = delimiter();
    assert forall|c: char| c == ':' || c == '\n' implies !t.contains(c) && !u.contains(c)
        && !o.contains(c) && !d.contains(c) by {
        if t.contains(c) {
            let k = choose|k: int| 0 <= k < t.len() && t[k] == c;
            assert(t[k] == c);
        }
        if u.contains(c) {
            let k = choose|k: int| 0 <= k < u.len() && u[k] == c;
            assert(u[k] == c);
        }
        if o.contains(c) {
            let k = choose|k: int| 0 <= k < o.len() && o[k] == c;
            assert(o[k] == c);
        }
        if d.contains(c) {
            let k = choose|k: int| 0 <= k < d.len() && d[k] == c;
            assert(d[k] == c);
        }
    }
}

/// A value that `lookup` finds stands in one of the fields, under that key.
pub proof fn lemma_lookup_found(fields: Seq<(Seq<char>, Seq<char>)>, key: Seq<char>)
    ensures
        match lookup(fields, key) {
            Some(value) => exists|i: int| 0 <= i < fields.len() && fields[i] == (key, value),
            None => forall|i: int| 0 <= i < fields.len() ==> (#[trigger] fields[i]).0 != key,
        },
    decreases fields.len(),
{
    if fields.len() > 0 {
        let front = fields.drop_last();
        if fields.last().0 == key {
            assert(fields[fields.len() - 1] == (key, fields.last().1));
        } else {
            lemma_lookup_found(front, key);
            match lookup(front, key) {
                Some(value) => {
                    let i = choose|i: int| 0 <= i < front.len() && front[i] == (key, value);
                    assert(fields[i] == (key, value));
                },
                None => {
                    assert forall|i: int| 0 <= i < fields.len() implies (#[trigger] fields[i]).0
                        != key by {
                        if i < front.len() {
                            assert(front[i] == fields[i]);
                        }
                    }
                },
            }
        }
    }
}

/// Looking a key up in two runs of fields: the second run decides where
/// it holds the key.
pub proof fn lemma_lookup_concat(
    a: Seq<(Seq<char>, Seq<char>)>,
    b: Seq<(Seq<char>, Seq<char>)>,
    key: Seq<char>,
)
    ensures
        lookup(a + b, key) == match lookup(b, key) {
            Some(value) => Some(value),
            None => lookup(a, key),
        },
    decreases b.len(),
{
    if b.len() == 0 {
        assert(a + b =~= a);
    } else {
        assert((a + b).drop_last() =~= a + b.drop_last());
        assert((a + b).last() == b.last());
        lemma_lookup_concat(a, b.drop_last(), key);
    }
}

/// The other fields hold no leading key, stand in the fields they were
/// taken from, and answer `lookup` as those do for every other key.
pub proof fn lemma_other_fields(fields: Seq<(Seq<char>, Seq<char>)>)
    ensures
        forall|i: int|
            0 <= i < other_fields(fields).len() ==> !is_leading_key(
                (#[trigger] other_fields(fields)[i]).0,
            ) && fields.contains(other_fields(fields)[i]),
        forall|key: Seq<char>|
            !is_leading_key(key) ==> #[trigger] lookup(other_fields(fields), key) == lookup(
                fields,
                key,
            ),
        forall|key: Seq<char>|
            is_leading_key(key) ==> #[trigger] lookup(other_fields(fields), key) is None,
        (forall|i: int| 0 <= i < fields.len() ==> !is_leading_key((#[trigger] fields[i]).0))
            ==> other_fields(fields) == fields,
    decreases fields.len(),
{
    if fields.len() > 0 {
        let front = fields.drop_last();
        let last = fields.last();
        lemma_other_fields(front);
        let out = other_fields(fields);
        assert forall|i: int| 0 <= i < out.len() implies !is_leading_key((#[trigger] out[i]).0)
            && fields.contains(out[i]) by {
            if i < other_fields(front).len() {
                assert(out[i] == other_fields(front)[i]);
                let j = choose|j: int| 0 <= j < front.len() && front[j] == out[i];
                assert(fields[j] == out[i]);
            } else {
                assert(out[i] == last);
                assert(fields[fields.len() - 1] == last);
            }
        }
        assert forall|key: Seq<char>| !is_leading_key(key) implies #[trigger] lookup(out, key)
            == lookup(fields, key) by {
            assert(lookup(other_fields(front), key) == lookup(front, key));
            if !is_leading_key(last.0) {
                assert(out.drop_last() =~= other_fields(front));
                assert(out.last() == last);
            } else {
                assert(last.0 != key);
                assert(out == other_fields(front));
            }
        }
        assert forall|key: Seq<char>| is_leading_key(key) implies #[trigger] lookup(out, key)
            is None by {
            assert(lookup(other_fields(front), key) is None);
            if !is_leading_key(last.0) {
                assert(out.drop_last() =~= other_fields(front));
                assert(out.last() == last);
                assert(last.0 != key);
            } else {
                assert(out == other_fields(front));
            }
        }
        if forall|i: int| 0 <= i < fields.len() ==> !is_leading_key((#[trigger] fields[i]).0) {
            assert forall|i: int| 0 <= i < front.len() implies !is_leading_key(
                (#[trigger] front[i]).0,
            ) by {
                assert(front[i] == fields[i]);
            }
            assert(!is_leading_key(fields[fields.len() - 1].0));
            assert(out =~= fields);
        }
    }
}

/// The canonical order keeps what `lookup` answers for every key, and
/// keeps fields storable.
pub proof fn lemma_canonical(fields: Seq<(Seq<char>, Seq<char>)>)
    ensures
        forall|key: Seq<char>| #[trigger] lookup(canonical(fields), key) == lookup(fields, key),
        storable_fields(fields) ==> storable_fields(canonical(fields)),
{
    lemma_keys();
    lemma_other_fields(fields);
    let lt = leading(fields, key_ticket());
    let ls = leading(fields, key_status());
    let lo = leading(fields, key_owner());
    let rest = other_fields(fields);
    let c = canonical(fields);
    assert forall|key: Seq<char>| #[trigger] lookup(c, key) == lookup(fields, key) by {
        lemma_lookup_concat(lt + ls + lo, rest, key);
        lemma_lookup_concat(lt + ls, lo, key);
        lemma_lookup_concat(lt, ls, key);
        lemma_leading_lookup(fields, key_ticket(), key);
        lemma_leading_lookup(fields, key_status(), key);
        lemma_leading_lookup(fields, key_owner(), key);
    }
    if storable_fields(fields) {
        lemma_lookup_found(fields, key_ticket());
        lemma_lookup_found(fields, key_status());
        lemma_lookup_found(fields, key_owner());
        assert forall|i: int| 0 <= i < c.len() implies {
            &&& !(#[trigger] c[i]).0.contains(':')
            &&& !c[i].0.contains('\n')
            &&& !c[i].1.contains('\n')
        } by {
            let f = c[i];
            if i < lt.len() {
                assert(f == lt[i]);
                let j = choose|j: int| 0 <= j < fields.len() && fields[j] == f;
                assert(fields[j] == f);
            } else if i < lt.len() + ls.len() {
                assert(f == ls[i - lt.len()]);
                let j = choose|j: int| 0 <= j < fields.len() && fields[j] == f;
                assert(fields[j] == f);
            } else if i < lt.len() + ls.len() + lo.len() {
                assert(f == lo[i - lt.len() - ls.len()]);
                let j = choose|j: int| 0 <= j < fields.len() && fields[j] == f;
                assert(fields[j] == f);
            } else {
                assert(f == rest[i - lt.len() - ls.len() - lo.len()]);
                assert(fields.contains(f));
                let j = choose|j: int| 0 <= j < fields.len() && fields[j] == f;
                assert(fields[j] == f);
            }
        }
    }
}

/// What `lookup` answers on the one field that `leading` gives.
proof fn lemma_leading_lookup(
    fields: Seq<(Seq<char>, Seq<char>)>,
    leading_key: Seq<char>,
    key: Seq<char>,
)
    ensures
        lookup(leading(fields, leading_key), key) == if key == leading_key {
            lookup(fields, leading_key)
        } else {
            None
        },
{
    let l = leading(fields, leading_key);
    if l.len() > 0 {
        assert(l.drop_last() =~= Seq::<(Seq<char>, Seq<char>)>::empty());
        assert(lookup(l.drop_last(), key) is None);
    }
}

/// The header text of two runs of fields is the two header texts.
pub proof fn lemma_header_text_concat(
    a: Seq<(Seq<char>, Seq<char>)>,
    b: Seq<(Seq<char>, Seq<char>)>,
)
    ensures
        header_text(a + b) == header_text(a) + header_text(b),
    decreases b.len(),
{
    if b.len() == 0 {
        assert(a + b =~= a);
        assert(header_text(a) + header_text(b) =~= header_text(a));
    } else {
        assert((a + b).drop_last() =~= a + b.drop_last());
        assert((a + b).last() == b.last());
        lemma_header_text_concat(a, b.drop_last());
        assert(header_text(a + b) =~= header_text(a) + header_text(b));
    }
}

/// Storable header fields followed by more text split into one line per
/// field, then the lines of that text.
pub proof fn lemma_header_lines(fields: Seq<(Seq<char>, Seq<char>)>, tail: Seq<char>)
    requires
        storable_fields(fields),
    ensures
        split(header_text(fields) + tail, '\n') == Seq::new(
            fields.len(),
            |i: int| field_line(fields[i]),
        ) + split(tail, '\n'),
    decreases fields.len(),
{
    let lines = Seq::new(fields.len(), |i: int| field_line(fields[i]));
    if fields.len() == 0 {
        assert(header_text(fields) + tail =~= tail);
        assert(lines + split(tail, '\n') =~= split(tail, '\n'));
    } else {
        let front = fields.drop_last();
        let last = fields.last();
        let line = field_line(last);
        let tail2 = line + seq!['\n'] + tail;
        assert forall|i: int| 0 <= i < front.len() implies {
            &&& !(#[trigger] front[i]).0.contains(':')
            &&& !front[i].0.contains('\n')
            &&& !front[i].1.contains('\n')
        } by {
            assert(front[i] == fields[i]);
        }
        lemma_header_lines(front, tail2);
        assert(fields[fields.len() - 1] == last);
        lemma_field_line(last);
        crate::text::lemma_split_first(line, tail, '\n');
        assert(header_text(fields) + tail =~= header_text(front) + tail2);
        let front_lines = Seq::new(front.len(), |i: int| field_line(front[i]));
        assert(lines =~= front_lines.push(line));
        assert(lines + split(tail, '\n') =~= front_lines + (seq![line] + split(tail, '\n')));
    }
}

/// A header line of a storable field holds no newline, is no delimiter,
/// holds a `:`, and comes apart into the field it was made of.
pub proof fn lemma_field_line(field: (Seq<char>, Seq<char>))
    requires
        !field.0.contains(':'),
        !field.0.contains('\n'),
        !field.1.contains('\n'),
    ensures
        !field_line(field).contains('\n'),
        field_line(field).contains(':'),
        !is_delimiter(field_line(field)),
        split_field(field_line(field)) == field,
{
    let line = field_line(field);
    let at = field.0.len() as int;
    assert(line[at] == ':');
    if line.contains('\n') {
        let k = choose|k: int| 0 <= k < line.len() && line[k] == '\n';
        if k < at {
            assert(field.0[k] == '\n');
        } else if k > at {
            assert(field.1[k - at - 1] == '\n');
        }
    }
    assert forall|j: int| 0 <= j < at implies line[j] != ':' by {
        if line[j] == ':' {
            assert(field.0[j] == ':');
        }
    }
    crate::text::lemma_first_index_is(line, ':', at);
    assert(line.take(at) =~= field.0);
    assert(line.skip(at + 1) =~= field.1);
}

/// Reading back what was written gives the ticket in canonical order:
/// the same body, and for every key the same value.
pub proof fn lemma_round_trip(r: RecordView)
    requires
        storable(r),
    ensures
        parse_text(serialize_text(r)) == Some(
            RecordView { fields: canonical(r.fields), body: r.body },
        ),
        parse_text(serialize_text(r))->0.id() == r.id(),
        parse_text(serialize_text(r))->0.status() == r.status(),
        parse_text(serialize_text(r))->0.owner() == r.owner(),
        parse_text(serialize_text(r))->0.body == r.body,
{
    lemma_keys();
    lemma_canonical(r.fields);
    let fields = canonical(r.fields);
    let n = fields.len() as int;
    let after = r.body + seq!['\n', '\n'];
    let tail = delimiter() + seq!['\n'] + after;
    let raw = serialize_text(r);
    assert(raw =~= header_text(fields) + tail);
    lemma_header_lines(fields, tail);
    crate::text::lemma_split_first(delimiter(), after, '\n');
    let header = Seq::new(fields.len(), |i: int| field_line(fields[i]));
    let lines = split(raw, '\n');
    assert(lines =~= header + (seq![delimiter()] + split(after, '\n')));
    let test = delimiter_test();
    assert forall|k: int| 0 <= k < n implies !test(lines[k]) && (#[trigger] lines[k]).contains(
        ':',
    ) && split_field(lines[k]) == fields[k] by {
        assert(lines[k] == field_line(fields[k]));
        lemma_field_line(fields[k]);
    }
    assert(lines[n] == delimiter());
    assert(test(lines[n]));
    lemma_first_match_is(lines, test, n);
    assert(lines.skip(n + 1) =~= split(after, '\n'));
    crate::text::lemma_join_split(after, '\n');
    assert(after.take(after.len() - 2) =~= r.body);
    assert(body_text(after) =~= r.body);
    assert(Seq::new(n as nat, |k: int| split_field(lines[k])) =~= fields);
}

/// A new ticket whose further fields use none of the three leading keys
/// reads back exactly as it was made, with the number, status `open` and
/// owner it was given.
pub proof fn lemma_new_record_round_trip(
    id: u32,
    body: Seq<char>,
    owner: Option<Seq<char>>,
    extra: Seq<(Seq<char>, Seq<char>)>,
)
    requires
        !(body.len() > 0 && body[0] == '\n'),
        owner matches Some(name) ==> !name.contains('\n'),
        storable_fields(extra),
        forall|i: int| 0 <= i < extra.len() ==> !is_leading_key((#[trigger] extra[i]).0),
    ensures
        storable(new_record(id, body, owner, extra)),
        parse_text(serialize_text(new_record(id, body, owner, extra))) == Some(
            new_record(id, body, owner, extra),
        ),
        new_record(id, body, owner, extra).id() == Some(id),
        new_record(id, body, owner, extra).status() == Some(Status::Open.name()),
        new_record(id, body, owner, extra).owner() == owner,
{
    lemma_keys();
    crate::ident::lemma_decimal_text(id as nat);
    crate::ident::lemma_id_of_decimal_text(id);
    crate::status::lemma_status_names(Status::Open, Status::Open);
    let r = new_record(id, body, owner, extra);
    let ticket = (key_ticket(), decimal_text(id as nat));
    let status = (key_status(), Status::Open.name());
    let head = seq![ticket, status];
    let none = Seq::<(Seq<char>, Seq<char>)>::empty();
    let owner_field: Seq<(Seq<char>, Seq<char>)> = match owner {
        Some(name) => seq![(key_owner(), name)],
        None => none,
    };
    let front = head + owner_field;
    assert(r.fields == front + extra);
    assert forall|i: int| 0 <= i < r.fields.len() implies {
        &&& !(#[trigger] r.fields[i]).0.contains(':')
        &&& !r.fields[i].0.contains('\n')
        &&& !r.fields[i].1.contains('\n')
    } by {
        if i >= front.len() {
            assert(r.fields[i] == extra[i - front.len()]);
        }
    }
    // what the three leading keys stand for in the first fields
    assert(head.drop_last() =~= seq![ticket]);
    assert(seq![ticket].drop_last() =~= none);
    assert(lookup(none, key_ticket()) is None);
    assert(lookup(none, key_status()) is None);
    assert(lookup(none, key_owner()) is None);
    assert(lookup(seq![ticket], key_ticket()) == Some(ticket.1));
    assert(lookup(seq![ticket], key_status()) is None);
    assert(lookup(seq![ticket], key_owner()) is None);
    assert(lookup(head, key_ticket()) == Some(ticket.1));
    assert(lookup(head, key_status()) == Some(status.1));
    assert(lookup(head, key_owner()) is None);
    if owner_field.len() > 0 {
        assert(owner_field.drop_last() =~= none);
    }
    assert(lookup(owner_field, key_ticket()) is None);
    assert(lookup(owner_field, key_status()) is None);
    assert(lookup(owner_field, key_owner()) == owner);
    lemma_lookup_concat(head, owner_field, key_ticket());
    lemma_lookup_concat(head, owner_field, key_status());
    lemma_lookup_concat(head, owner_field, key_owner());
    // the further fields hold none of the three
    lemma_other_fields(extra);
    assert(other_fields(extra) == extra);
    assert(lookup(other_fields(extra), key_ticket()) is None);
    assert(lookup(other_fields(extra), key_status()) is None);
    assert(lookup(other_fields(extra), key_owner()) is None);
    lemma_lookup_concat(front, extra, key_ticket());
    lemma_lookup_concat(front, extra, key_status());
    lemma_lookup_concat(front, extra, key_owner());
    assert(lookup(r.fields, key_ticket()) == Some(ticket.1));
    assert(lookup(r.fields, key_status()) == Some(status.1));
    assert(lookup(r.fields, key_owner()) == owner);
    lemma_round_trip(r);
    // the fields already stand in canonical order
    lemma_other_fields_concat(front, extra);
    lemma_other_fields_concat(head, owner_field);
    assert(other_fields(none) =~= none);
    assert(other_fields(seq![ticket]) =~= none);
    assert(other_fields(head) =~= none);
    assert(other_fields(owner_field) =~= none);
    assert(other_fields(r.fields) =~= extra);
    assert(leading(r.fields, key_ticket()) =~= seq![ticket]);
    assert(leading(r.fields, key_status()) =~= seq![status]);
    assert(leading(r.fields, key_owner()) =~= owner_field);
    assert(canonical(r.fields) =~= r.fields);
}

/// The other fields of two runs of fields are the other fields of each.
pub proof fn lemma_other_fields_concat(
    a: Seq<(Seq<char>, Seq<char>)>,
    b: Seq<(Seq<char>, Seq<char>)>,
)
    ensures
        other_fields(a + b) == other_fields(a) + other_fields(b),
    decreases b.len(),
{
    if b.len() == 0 {
        assert(a + b =~= a);
        assert(other_fields(a) + other_fields(b) =~= other_fields(a));
    } else {
        assert((a + b).drop_last() =~= a + b.drop_last());
        assert((a + b).last() == b.last());
        lemma_other_fields_concat(a, b.drop_last());
        assert(other_fields(a + b) =~= other_fields(a) + other_fields(b));
    }
}


/// The view of an optional string slice.
pub open spec fn opt_view(s: Option<&str>) -> Option<Seq<char>> {
    match s {
        Some(text) => Some(text@),
        None => None,
    }
}

/// The view of an optional string.
pub open spec fn opt_string_view(s: Option<String>) -> Option<Seq<char>> {
    match s {
        Some(text) => Some(text@),
        None => None,
    }
}

/// One header line, ended by a newline, at the end of `text`.
fn push_line(text: &mut String, key: &str, value: &str)
    ensures
        final(text)@ == old(text)@ + field_line((key@, value@)) + seq!['\n'],
{
    proof {
        reveal_strlit(":");
        reveal_strlit("\n");
    }
    text.append(key);
    text.append(":");
    text.append(value);
    text.append("\n");
    assert(":"@ =~= seq![':']);
    assert("\n"@ =~= seq!['\n']);
    assert(text@ =~= old(text)@ + field_line((key@, value@)) + seq!['\n']);
}

impl Field {
    /// A field with that key and value.
    pub fn new(key: &str, value: &str) -> (field: Field)
        ensures
            field@ == (key@, value@),
    {
        Field { key: String::from_str(key), value: String::from_str(value) }
    }
}

impl TicketRecord {
    /// A new ticket: number `id`, status `open`, the owner if one is given,
    /// then the further fields, and the body.
    pub fn new(id: u32, body: &str, owner: Option<&str>, extra: &Vec<Field>) -> (record:
        TicketRecord)
        ensures
            record@ == new_record(id, body@, opt_view(owner), fields_view(extra@)),
    {
        let mut fields: Vec<Field> = Vec::new();
        fields.push(Field { key: String::from_str("ticket"), value: id_text(id) });
        fields.push(Field::new("status", Status::Open.as_str()));
        match owner {
            Some(name) => {
                fields.push(Field::new("owner", name));
            },
            None => {},
        }
        let ghost first = fields_view(fields@);
        assert(first =~= new_record(id, body@, opt_view(owner), Seq::empty()).fields);
        let mut i: usize = 0;
        while i < extra.len()
            invariant
                i <= extra.len(),
                fields_view(fields@) == first + fields_view(extra@).take(i as int),
            decreases extra.len() - i,
        {
            let field = Field { key: extra[i].key.clone(), value: extra[i].value.clone() };
            let ghost before = fields_view(fields@);
            let ghost added = field@;
            fields.push(field);
            proof {
                let more = fields_view(extra@);
                assert(added == more[i as int]);
                assert(fields_view(fields@) =~= before.push(added));
                assert(more.take(i + 1) =~= more.take(i as int).push(added));
                assert(fields_view(fields@) =~= first + more.take(i + 1));
            }
            i += 1;
        }
        assert(fields_view(extra@).take(i as int) =~= fields_view(extra@));
        let record = TicketRecord { fields, body: String::from_str(body) };
        assert(record@.fields =~= new_record(
            id,
            body@,
            opt_view(owner),
            fields_view(extra@),
        ).fields);
        record
    }

    /// The value of the last header field with that key.
    pub fn field(&self, key: &str) -> (value: Option<String>)
        ensures
            opt_string_view(value) == lookup(self@.fields, key@),
    {
        let ghost all = self@.fields;
        let mut i: usize = self.fields.len();
        assert(all.take(i as int) =~= all);
        while i > 0
            invariant
                i <= self.fields.len(),
                all == self@.fields,
                lookup(all, key@) == lookup(all.take(i as int), key@),
            decreases i,
        {
            i -= 1;
            proof {
                assert(all.take(i + 1).drop_last() =~= all.take(i as int));
                assert(all.take(i + 1).last() == self.fields[i as int]@);
            }
            if str_eq(self.fields[i].key.as_str(), key) {
                return Some(self.fields[i].value.clone());
            }
        }
        None
    }

    /// The ticket's number: what the `ticket` field names.
    pub fn id(&self) -> (id: Option<u32>)
        ensures
            id == self@.id(),
    {
        match self.field("ticket") {
            Some(value) => parse_id(value.as_str()),
            None => None,
        }
    }

    /// The value of the `status` field.
    pub fn status(&self) -> (status: Option<String>)
        ensures
            opt_string_view(status) == self@.status(),
    {
        self.field("status")
    }

    /// The value of the `owner` field.
    pub fn owner(&self) -> (owner: Option<String>)
        ensures
            opt_string_view(owner) == self@.owner(),
    {
        self.field("owner")
    }

    /// The ticket's description.
    pub fn body(&self) -> (body: String)
        ensures
            body@ == self@.body,
    {
        self.body.clone()
    }

    /// The ticket as text: `ticket`, `status` and `owner` lines where the
    /// ticket has these fields, the other fields in their order, a delimiter
    /// line, the body, and a blank line.
    pub fn serialize(&self) -> (text: String)
        ensures
            text@ == serialize_text(self@),
    {
        let ghost all = self@.fields;
        let mut text = String::new();
        match self.field("ticket") {
            Some(value) => {
                push_line(&mut text, "ticket", value.as_str());
            },
            None => {},
        }
        proof {
            assert(text@ =~= header_text(leading(all, key_ticket()))) by {
                reveal_with_fuel(header_text, 2);
                let l = leading(all, key_ticket());
                if l.len() > 0 {
                    assert(l.drop_last() =~= Seq::<(Seq<char>, Seq<char>)>::empty());
                }
            }
        }
        let ghost after_ticket = text@;
        match self.field("status") {
            Some(value) => {
                push_line(&mut text, "status", value.as_str());
            },
            None => {},
        }
        proof {
            assert(text@ =~= after_ticket + header_text(leading(all, key_status()))) by {
                reveal_with_fuel(header_text, 2);
                let l = leading(all, key_status());
                if l.len() > 0 {
                    assert(l.drop_last() =~= Seq::<(Seq<char>, Seq<char>)>::empty());
                }
            }
        }
        let ghost after_status = text@;
        match self.field("owner") {
            Some(value) => {
                push_line(&mut text, "owner", value.as_str());
            },
            None => {},
        }
        proof {
            assert(text@ =~= after_status + header_text(leading(all, key_owner()))) by {
                reveal_with_fuel(header_text, 2);
                let l = leading(all, key_owner());
                if l.len() > 0 {
                    assert(l.drop_last() =~= Seq::<(Seq<char>, Seq<char>)>::empty());
                }
            }
        }
        let ghost lead = leading(all, key_ticket()) + leading(all, key_status()) + leading(
            all,
            key_owner(),
        );
        proof {
            lemma_header_text_concat(leading(all, key_ticket()), leading(all, key_status()));
            lemma_header_text_concat(
                leading(all, key_ticket()) + leading(all, key_status()),
                leading(all, key_owner()),
            );
            assert(text@ =~= header_text(lead));
            assert(all.take(0) =~= Seq::<(Seq<char>, Seq<char>)>::empty());
        }
        let mut i: usize = 0;
        while i < self.fields.len()
            invariant
                i <= self.fields.len(),
                all == self@.fields,
                text@ == header_text(lead) + header_text(other_fields(all.take(i as int))),
            decreases self.fields.len() - i,
        {
            let field = &self.fields[i];
            let key = field.key.as_str();
            proof {
                assert(all.take(i + 1).drop_last() =~= all.take(i as int));
                assert(all.take(i + 1).last() == field@);
            }
            if !(str_eq(key, "ticket") || str_eq(key, "status") || str_eq(key, "owner")) {
                push_line(&mut text, key, field.value.as_str());
                proof {
                    let done = other_fields(all.take(i as int));
                    assert(done.push(field@).drop_last() =~= done);
                    assert(text@ =~= header_text(lead) + header_text(
                        other_fields(all.take(i + 1)),
                    ));
                }
            }
            i += 1;
        }
        proof {
            assert(all.take(i as int) =~= all);
            lemma_header_text_concat(lead, other_fields(all));
            reveal_strlit("\n");
            reveal_strlit("\n\n");
        }
        text.append("================");
        text.append("\n");
        text.append(self.body.as_str());
        text.append("\n\n");
        assert("\n"@ =~= seq!['\n']);
        assert("\n\n"@ =~= seq!['\n', '\n']);
        assert(text@ =~= serialize_text(self@));
        text
    }
}


/// The fields with every field of that key given the new value.
pub open spec fn with_value(
    fields: Seq<(Seq<char>, Seq<char>)>,
    key: Seq<char>,
    value: Seq<char>,
) -> Seq<(Seq<char>, Seq<char>)> {
    Seq::new(
        fields.len(),
        |k: int|
            if fields[k].0 == key {
                (key, value)
            } else {
                fields[k]
            },
    )
}

/// After every field of a key got a new value, `lookup` gives that value
/// for the key, where the key is there at all, and for every other key
/// what it gave before.
pub proof fn lemma_with_value_lookup(
    fields: Seq<(Seq<char>, Seq<char>)>,
    key: Seq<char>,
    value: Seq<char>,
)
    ensures
        lookup(fields, key) is Some ==> lookup(with_value(fields, key, value), key) == Some(value),
        lookup(fields, key) is None ==> with_value(fields, key, value) == fields,
        forall|other: Seq<char>|
            other != key ==> #[trigger] lookup(with_value(fields, key, value), other) == lookup(
                fields,
                other,
            ),
    decreases fields.len(),
{
    let after = with_value(fields, key, value);
    if fields.len() > 0 {
        let front = fields.drop_last();
        lemma_with_value_lookup(front, key, value);
        assert(after.drop_last() =~= with_value(front, key, value));
        assert forall|other: Seq<char>| other != key implies #[trigger] lookup(after, other)
            == lookup(fields, other) by {
            assert(lookup(with_value(front, key, value), other) == lookup(front, other));
        }
        if lookup(fields, key) is None {
            assert(fields.last().0 != key);
            assert(with_value(front, key, value) == front);
            assert forall|k: int| 0 <= k < fields.len() implies after[k] == fields[k] by {
                if k < front.len() {
                    assert(after[k] == with_value(front, key, value)[k]);
                    assert(front[k] == fields[k]);
                }
            }
            assert(after =~= fields);
        }
    } else {
        assert(after =~= fields);
    }
}

impl TicketRecord {
    /// The ticket's status as one of the four that are known; `None` where
    /// the ticket has no status or another one.
    pub fn known_status(&self) -> (status: Option<Status>)
        ensures
            match status {
                Some(s) => self@.status() == Some(s.name()),
                None => forall|s: Status| self@.status() != Some(s.name()),
            },
    {
        match self.status() {
            Some(name) => Status::from_name(name.as_str()),
            None => None,
        }
    }
}

} // verus!
