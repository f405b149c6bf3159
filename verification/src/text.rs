//! Text as sequences of characters: searching, splitting into lines and
//! joining them again, with the lemmas that the ticket format rests on.

use vstd::prelude::*;
use vstd::string::*;

verus! {

/// Position of the first element of `s` that satisfies `p`, or `s.len()`
/// where none does.
pub open spec fn first_match<T>(s: Seq<T>, p: spec_fn(T) -> bool) -> int
    decreases s.len(),
{
    if s.len() == 0 {
        0
    } else if p(s[0]) {
        0
    } else {
        1 + first_match(s.drop_first(), p)
    }
}

/// `first_match` lies within `0..=s.len()`, nothing before it satisfies
/// `p`, and where it is a position of `s`, the element there does.
pub proof fn lemma_first_match<T>(s: Seq<T>, p: spec_fn(T) -> bool)
    ensures
        0 <= first_match(s, p) <= s.len(),
        forall|j: int| 0 <= j < first_match(s, p) ==> !p(s[j]),
        first_match(s, p) < s.len() ==> p(s[first_match(s, p)]),
    decreases s.len(),
{
    if s.len() > 0 && !p(s[0]) {
        let t = s.drop_first();
        lemma_first_match(t, p);
        assert forall|j: int| 0 <= j < first_match(s, p) implies !p(s[j]) by {
            if j > 0 {
                assert(s[j] == t[j - 1]);
            }
        }
        assert(first_match(s, p) < s.len() ==> s[first_match(s, p)] == t[first_match(t, p)]);
    }
}

/// A position whose element is the first to satisfy `p`, or `s.len()`
/// where none does, is `first_match(s, p)`.
pub proof fn lemma_first_match_is<T>(s: Seq<T>, p: spec_fn(T) -> bool, at: int)
    requires
        0 <= at <= s.len(),
        forall|j: int| 0 <= j < at ==> !p(s[j]),
        at < s.len() ==> p(s[at]),
    ensures
        first_match(s, p) == at,
{
    lemma_first_match(s, p);
    let q = first_match(s, p);
    if q < at {
        assert(p(s[q]));
    } else if at < q {
        assert(p(s[at]));
    }
}

/// The test "is this character `c`".
pub open spec fn is_char(c: char) -> spec_fn(char) -> bool {
    |x: char| x == c
}

/// Position of the first `c` in `s`, or `s.len()` where `s` holds none.
pub open spec fn first_index(s: Seq<char>, c: char) -> int {
    first_match(s, is_char(c))
}

/// `first_index` lies within `0..=s.len()`, nothing before it equals `c`,
/// and where it is a position of `s`, that position holds `c`.
pub proof fn lemma_first_index(s: Seq<char>, c: char)
    ensures
        0 <= first_index(s, c) <= s.len(),
        forall|j: int| 0 <= j < first_index(s, c) ==> s[j] != c,
        first_index(s, c) < s.len() ==> s[first_index(s, c)] == c,
        first_index(s, c) == s.len() <==> !s.contains(c),
{
    let p = is_char(c);
    lemma_first_match(s, p);
    let i = first_index(s, c);
    assert forall|j: int| 0 <= j < i implies s[j] != c by {
        assert(!p(s[j]));
    }
    if i < s.len() {
        assert(p(s[i]));
    }
    if s.contains(c) {
        let k = choose|k: int| 0 <= k < s.len() && s[k] == c;
        if i == s.len() {
            assert(!p(s[k]));
        }
    }
}

/// A position that holds the first `c` of `s`, or `s.len()` where there is
/// none, is `first_index(s, c)`.
pub proof fn lemma_first_index_is(s: Seq<char>, c: char, at: int)
    requires
        0 <= at <= s.len(),
        forall|j: int| 0 <= j < at ==> s[j] != c,
        at < s.len() ==> s[at] == c,
    ensures
        first_index(s, c) == at,
{
    lemma_first_match_is(s, is_char(c), at);
}

/// The pieces of `s` between occurrences of `sep`. There is always at least
/// one piece; a text that ends in `sep` has an empty last piece.
pub open spec fn split(s: Seq<char>, sep: char) -> Seq<Seq<char>>
    decreases s.len(),
{
    let i = first_index(s, sep);
    if 0 <= i < s.len() {
        seq![s.take(i)] + split(s.skip(i + 1), sep)
    } else {
        seq![s]
    }
}

/// The pieces with `sep` between each two neighbours.
pub open spec fn join(parts: Seq<Seq<char>>, sep: char) -> Seq<char>
    decreases parts.len(),
{
    if parts.len() == 0 {
        Seq::empty()
    } else if parts.len() == 1 {
        parts[0]
    } else {
        parts[0] + seq![sep] + join(parts.drop_first(), sep)
    }
}

/// No piece of a split holds the separator, and there is at least one piece.
pub proof fn lemma_split_pieces(s: Seq<char>, sep: char)
    ensures
        split(s, sep).len() >= 1,
        forall|k: int| 0 <= k < split(s, sep).len() ==> !(#[trigger] split(s, sep)[k]).contains(sep),
    decreases s.len(),
{
    lemma_first_index(s, sep);
    let i = first_index(s, sep);
    if i < s.len() {
        let rest = split(s.skip(i + 1), sep);
        lemma_split_pieces(s.skip(i + 1), sep);
        assert forall|k: int| 0 <= k < split(s, sep).len() implies !(#[trigger] split(
            s,
            sep,
        )[k]).contains(sep) by {
            if k == 0 {
                let head = s.take(i);
                if head.contains(sep) {
                    let j = choose|j: int| 0 <= j < head.len() && head[j] == sep;
                    assert(s[j] == sep);
                }
            } else {
                assert(split(s, sep)[k] == rest[k - 1]);
            }
        }
    }
}

/// Joining what a split gave restores the text.
pub proof fn lemma_join_split(s: Seq<char>, sep: char)
    ensures
        join(split(s, sep), sep) == s,
    decreases s.len(),
{
    lemma_first_index(s, sep);
    let i = first_index(s, sep);
    if i < s.len() {
        let rest = split(s.skip(i + 1), sep);
        lemma_split_pieces(s.skip(i + 1), sep);
        lemma_join_split(s.skip(i + 1), sep);
        let parts = split(s, sep);
        assert(parts.drop_first() =~= rest);
        assert(join(parts, sep) =~= s);
    }
}

/// Splitting what a join gave restores the pieces, where no piece holds the
/// separator.
pub proof fn lemma_split_join(parts: Seq<Seq<char>>, sep: char)
    requires
        parts.len() >= 1,
        forall|k: int| 0 <= k < parts.len() ==> !(#[trigger] parts[k]).contains(sep),
    ensures
        split(join(parts, sep), sep) == parts,
    decreases parts.len(),
{
    let s = join(parts, sep);
    if parts.len() == 1 {
        lemma_first_index(s, sep);
        assert(split(s, sep) =~= parts);
    } else {
        let rest = parts.drop_first();
        assert forall|k: int| 0 <= k < rest.len() implies !(#[trigger] rest[k]).contains(sep) by {
            assert(rest[k] == parts[k + 1]);
        }
        lemma_split_join(rest, sep);
        let head = parts[0];
        assert forall|j: int| 0 <= j < head.len() implies s[j] != sep by {
            if s[j] == sep {
                assert(head[j] == sep);
                assert(head.contains(sep));
            }
        }
        lemma_first_index_is(s, sep, head.len() as int);
        assert(s.take(head.len() as int) =~= head);
        assert(s.skip(head.len() as int + 1) =~= join(rest, sep));
        assert(split(s, sep) =~= parts);
    }
}

/// A first piece without the separator, then the separator, then more
/// text: the split is that piece followed by the split of the rest.
pub proof fn lemma_split_first(head: Seq<char>, rest: Seq<char>, sep: char)
    requires
        !head.contains(sep),
    ensures
        split(head + seq![sep] + rest, sep) == seq![head] + split(rest, sep),
{
    let s = head + seq![sep] + rest;
    assert forall|j: int| 0 <= j < head.len() implies s[j] != sep by {
        if s[j] == sep {
            assert(head[j] == sep);
            assert(head.contains(sep));
        }
    }
    lemma_first_index_is(s, sep, head.len() as int);
    assert(s.take(head.len() as int) =~= head);
    assert(s.skip(head.len() as int + 1) =~= rest);
}

/// Joining one more piece: the separator and the piece come at the end,
/// or the piece alone where there was none before.
pub proof fn lemma_join_push(parts: Seq<Seq<char>>, piece: Seq<char>, sep: char)
    ensures
        join(parts.push(piece), sep) == if parts.len() == 0 {
            piece
        } else {
            join(parts, sep) + seq![sep] + piece
        },
    decreases parts.len(),
{
    let all = parts.push(piece);
    if parts.len() == 0 {
        assert(all[0] == piece);
    } else if parts.len() == 1 {
        assert(all.drop_first() =~= seq![piece]);
        assert(join(seq![piece], sep) == piece);
    } else {
        lemma_join_push(parts.drop_first(), piece, sep);
        assert(all.drop_first() =~= parts.drop_first().push(piece));
        assert(join(all, sep) =~= join(parts, sep) + seq![sep] + piece);
    }
}

/// The characters of a string slice, in order.
pub fn to_chars(s: &str) -> (v: Vec<char>)
    ensures
        v@ == s@,
{
    let mut v: Vec<char> = Vec::new();
    for c in it: s.chars()
        invariant
            v@ == it.seq().take(it.index()),
            it.seq() == s@,
    {
        v.push(c);
    }
    v
}

/// Whether two string slices hold the same characters.
pub fn str_eq(a: &str, b: &str) -> (same: bool)
    ensures
        same == (a@ == b@),
{
    let x = to_chars(a);
    let y = to_chars(b);
    assert(x@.subrange(0, x.len() as int) =~= x@);
    chars_eq(&x, 0, x.len(), &y)
}

/// Whether the characters of `text` in `start..end` are those of `other`.
pub fn chars_eq(text: &Vec<char>, start: usize, end: usize, other: &Vec<char>) -> (same: bool)
    requires
        start <= end <= text.len(),
    ensures
        same == (text@.subrange(start as int, end as int) == other@),
{
    let ghost piece = text@.subrange(start as int, end as int);
    if end - start != other.len() {
        return false;
    }
    let mut i: usize = 0;
    while i < other.len()
        invariant
            start <= end <= text.len(),
            end - start == other.len(),
            i <= other.len(),
            piece == text@.subrange(start as int, end as int),
            forall|j: int| 0 <= j < i ==> piece[j] == other[j],
        decreases other.len() - i,
    {
        if text[start + i] != other[i] {
            assert(piece[i as int] != other@[i as int]);
            return false;
        }
        i += 1;
    }
    assert(piece =~= other@);
    true
}

/// The position of the first `c` at or after `from`, or the length of the
/// text where there is none.
pub fn find_char(text: &Vec<char>, from: usize, end: usize, c: char) -> (at: usize)
    requires
        from <= end <= text.len(),
    ensures
        from <= at <= end,
        at - from == first_index(text@.subrange(from as int, end as int), c),
{
    let ghost piece = text@.subrange(from as int, end as int);
    let mut at: usize = from;
    while at < end && text[at] != c
        invariant
            from <= at <= end <= text.len(),
            piece == text@.subrange(from as int, end as int),
            forall|j: int| 0 <= j < at - from ==> piece[j] != c,
        decreases end - at,
    {
        at += 1;
    }
    proof {
        lemma_first_index_is(piece, c, at - from);
    }
    at
}

/// A half-open range of positions in a text.
#[derive(Clone, Copy, Debug)]
pub struct Span {
    pub start: usize,
    pub end: usize,
}

/// What `split_spans` promises of its result: one span per piece of
/// `text`, each holding that piece, and after each piece but the last the
/// rest of the text is the remaining pieces joined.
pub open spec fn spans_are_pieces(spans: Seq<Span>, text: Seq<char>, sep: char) -> bool {
    let lines = split(text, sep);
    &&& spans.len() == lines.len()
    &&& forall|k: int|
        0 <= k < spans.len() ==> {
            &&& (#[trigger] spans[k]).start <= spans[k].end <= text.len()
            &&& lines[k] == text.subrange(spans[k].start as int, spans[k].end as int)
        }
    &&& forall|k: int|
        0 <= k < spans.len() - 1 ==> {
            &&& (#[trigger] spans[k]).end < text.len()
            &&& join(lines.skip(k + 1), sep) == text.skip(spans[k].end + 1)
        }
}

/// Where each piece of `text` starts and ends. Pieces are what lies
/// between occurrences of `sep`.
pub fn split_spans(text: &Vec<char>, sep: char) -> (spans: Vec<Span>)
    ensures
        spans_are_pieces(spans@, text@, sep),
{
    let ghost lines = split(text@, sep);
    let mut spans: Vec<Span> = Vec::new();
    let mut pos: usize = 0;
    proof {
        lemma_split_pieces(text@, sep);
        assert(text@.skip(0) =~= text@);
        assert(lines =~= lines.take(0) + lines);
    }
    loop
        invariant_except_break
            spans.len() < lines.len(),
            lines == lines.take(spans.len() as int) + split(text@.skip(pos as int), sep),
            forall|k: int|
                0 <= k < spans.len() ==> {
                    &&& (#[trigger] spans[k]).start <= spans[k].end < text.len()
                    &&& lines[k] == text@.subrange(spans[k].start as int, spans[k].end as int)
                    &&& join(lines.skip(k + 1), sep) == text@.skip(spans[k].end + 1)
                },
        invariant
            pos <= text.len(),
            lines == split(text@, sep),
        ensures
            spans_are_pieces(spans@, text@, sep),
        decreases text.len() - pos,
    {
        let ghost tail = text@.skip(pos as int);
        let ghost done = spans@.len() as int;
        let end = find_char(text, pos, text.len(), sep);
        proof {
            lemma_first_index(tail, sep);
            lemma_split_pieces(tail, sep);
            assert(split(tail, sep)[0] == tail.take(end - pos));
            assert(tail.take(end - pos) =~= text@.subrange(pos as int, end as int));
            assert(lines[done] == (lines.take(done) + split(tail, sep))[done]);
            assert(lines[done] == split(tail, sep)[0]);
        }
        spans.push(Span { start: pos, end });
        if end == text.len() {
            proof {
                assert(split(tail, sep) =~= seq![tail]);
                assert(lines.len() == (lines.take(done) + split(tail, sep)).len());
                assert(lines.len() == done + 1);
            }
            break;
        }
        proof {
            let next = text@.skip(end + 1);
            assert(tail.skip(end - pos + 1) =~= next);
            assert(split(tail, sep) == seq![tail.take(end - pos)] + split(next, sep));
            lemma_split_pieces(next, sep);
            assert(lines.len() == (lines.take(done) + split(tail, sep)).len());
            assert(lines.take(done + 1) =~= lines.take(done).push(lines[done]));
            assert(lines =~= lines.take(done + 1) + split(next, sep));
            assert(lines.skip(done + 1) =~= split(next, sep));
            lemma_join_split(next, sep);
        }
        pos = end + 1;
    }
    spans
}

/// Where each line of `text` starts and ends. Lines are what lies between
/// newline characters.
pub fn line_spans(text: &Vec<char>) -> (spans: Vec<Span>)
    ensures
        spans_are_pieces(spans@, text@, '\n'),
{
    split_spans(text, '\n')
}

/// The characters of `text` in `start..end`, as a string.
pub fn cut(text: &str, start: usize, end: usize) -> (piece: String)
    requires
        start <= end <= text@.len(),
    ensures
        piece@ == text@.subrange(start as int, end as int),
{
    String::from_str(text.substring_char(start, end))
}

/// One string after another.
pub fn concat(a: &str, b: &str) -> (both: String)
    ensures
        both@ == a@ + b@,
{
    let mut both = String::from_str(a);
    both.append(b);
    both
}


/// The texts of a sequence of strings.
pub open spec fn strings_view(strings: Seq<String>) -> Seq<Seq<char>> {
    Seq::new(strings.len(), |i: int| strings[i]@)
}

/// Whether `c` is white space: the characters with the Unicode property
/// `White_Space`.
pub open spec fn is_space(c: char) -> bool {
    let n = c as u32;
    ||| 0x09 <= n <= 0x0d
    ||| n == 0x20
    ||| n == 0x85
    ||| n == 0xa0
    ||| n == 0x1680
    ||| 0x2000 <= n <= 0x200a
    ||| n == 0x2028
    ||| n == 0x2029
    ||| n == 0x202f
    ||| n == 0x205f
    ||| n == 0x3000
}

/// The test "is this character white space".
pub open spec fn space_test() -> spec_fn(char) -> bool {
    |c: char| is_space(c)
}

/// The test "is this character no white space".
pub open spec fn ink_test() -> spec_fn(char) -> bool {
    |c: char| !is_space(c)
}

/// One past the position of the last element of `s` that satisfies `p`, or
/// 0 where none does.
pub open spec fn last_match_end<T>(s: Seq<T>, p: spec_fn(T) -> bool) -> int
    decreases s.len(),
{
    if s.len() == 0 {
        0
    } else if p(s.last()) {
        s.len() as int
    } else {
        last_match_end(s.drop_last(), p)
    }
}

/// `last_match_end` lies within `0..=s.len()`, nothing at or after it
/// satisfies `p`, and where it is not 0, the element before it does.
pub proof fn lemma_last_match_end<T>(s: Seq<T>, p: spec_fn(T) -> bool)
    ensures
        0 <= last_match_end(s, p) <= s.len(),
        forall|j: int| last_match_end(s, p) <= j < s.len() ==> !p(s[j]),
        last_match_end(s, p) > 0 ==> p(s[last_match_end(s, p) - 1]),
    decreases s.len(),
{
    if s.len() > 0 && !p(s.last()) {
        let t = s.drop_last();
        lemma_last_match_end(t, p);
        assert forall|j: int| last_match_end(s, p) <= j < s.len() implies !p(s[j]) by {
            if j < t.len() {
                assert(s[j] == t[j]);
            }
        }
        if last_match_end(s, p) > 0 {
            assert(s[last_match_end(s, p) - 1] == t[last_match_end(t, p) - 1]);
        }
    }
}

/// A position after which nothing satisfies `p` and before which the
/// element does, or 0 where none does, is `last_match_end(s, p)`.
pub proof fn lemma_last_match_end_is<T>(s: Seq<T>, p: spec_fn(T) -> bool, at: int)
    requires
        0 <= at <= s.len(),
        forall|j: int| at <= j < s.len() ==> !p(s[j]),
        at > 0 ==> p(s[at - 1]),
    ensures
        last_match_end(s, p) == at,
{
    lemma_last_match_end(s, p);
    let q = last_match_end(s, p);
    if q < at {
        assert(p(s[at - 1]));
    } else if at < q {
        assert(p(s[q - 1]));
    }
}

/// The text without the white space at its start and at its end.
pub open spec fn trim(s: Seq<char>) -> Seq<char> {
    let start = first_match(s, ink_test());
    let end = last_match_end(s, ink_test());
    if start < end {
        s.subrange(start, end)
    } else {
        Seq::empty()
    }
}

/// The first run of characters that are no white space; empty where the
/// text holds none.
pub open spec fn first_word(s: Seq<char>) -> Seq<char> {
    let start = first_match(s, ink_test());
    let rest = s.skip(start);
    rest.take(first_match(rest, space_test()))
}

/// Whether `c` is white space.
pub fn char_is_space(c: char) -> (yes: bool)
    ensures
        yes == is_space(c),
{
    let n = c as u32;
    (0x09 <= n && n <= 0x0d) || n == 0x20 || n == 0x85 || n == 0xa0 || n == 0x1680 || (0x2000 <= n
        && n <= 0x200a) || n == 0x2028 || n == 0x2029 || n == 0x202f || n == 0x205f || n == 0x3000
}

/// Where the text starts and ends once the white space around it is
/// dropped.
pub fn trim_span(text: &Vec<char>) -> (span: Span)
    ensures
        span.start <= span.end <= text.len(),
        text@.subrange(span.start as int, span.end as int) == trim(text@),
{
    let ghost ink = ink_test();
    let mut start: usize = 0;
    while start < text.len() && char_is_space(text[start])
        invariant
            start <= text.len(),
            ink == ink_test(),
            forall|j: int| 0 <= j < start ==> !ink(text@[j]),
        decreases text.len() - start,
    {
        start += 1;
    }
    let mut end: usize = text.len();
    while end > start && char_is_space(text[end - 1])
        invariant
            start <= end <= text.len(),
            ink == ink_test(),
            forall|j: int| end <= j < text.len() ==> !ink(text@[j]),
        decreases end,
    {
        end -= 1;
    }
    proof {
        if start < text.len() {
            assert(ink(text@[start as int]));
        }
        lemma_first_match_is(text@, ink, start as int);
        if start < end {
            assert(ink(text@[end - 1]));
            lemma_last_match_end_is(text@, ink, end as int);
        } else {
            lemma_last_match_end(text@, ink);
            let q = last_match_end(text@, ink);
            if q > start {
                assert(ink(text@[q - 1]));
            }
            assert(text@.subrange(start as int, end as int) =~= Seq::<char>::empty());
        }
    }
    Span { start, end }
}

/// Where the first run of characters that are no white space starts and
/// ends.
pub fn first_word_span(text: &Vec<char>) -> (span: Span)
    ensures
        span.start <= span.end <= text.len(),
        text@.subrange(span.start as int, span.end as int) == first_word(text@),
{
    let ghost ink = ink_test();
    let ghost space = space_test();
    let mut start: usize = 0;
    while start < text.len() && char_is_space(text[start])
        invariant
            start <= text.len(),
            ink == ink_test(),
            forall|j: int| 0 <= j < start ==> !ink(text@[j]),
        decreases text.len() - start,
    {
        start += 1;
    }
    let ghost rest = text@.skip(start as int);
    let mut end: usize = start;
    while end < text.len() && !char_is_space(text[end])
        invariant
            start <= end <= text.len(),
            space == space_test(),
            rest == text@.skip(start as int),
            forall|j: int| 0 <= j < end - start ==> !space(rest[j]),
        decreases text.len() - end,
    {
        end += 1;
    }
    proof {
        if start < text.len() {
            assert(ink(text@[start as int]));
        }
        lemma_first_match_is(text@, ink, start as int);
        if end < text.len() {
            assert(space(rest[end - start]));
        }
        lemma_first_match_is(rest, space, end - start);
        assert(rest.take(end - start) =~= text@.subrange(start as int, end as int));
    }
    Span { start, end }
}

} // verus!
