//! Ticket numbers and their decimal names.

use vstd::prelude::*;
use vstd::string::*;
use crate::text::to_chars;

verus! {

/// Whether `c` is one of the ten decimal digits.
pub open spec fn is_digit(c: char) -> bool {
    '0' <= c <= '9'
}

/// The number a digit stands for.
pub open spec fn digit_value(c: char) -> nat {
    (c as nat - '0' as nat) as nat
}

/// The digit that stands for `d`, for `d` below ten.
pub open spec fn digit_char(d: nat) -> char {
    (d + '0' as nat) as char
}

/// Whether `s` is one or more decimal digits and nothing else.
pub open spec fn is_digits(s: Seq<char>) -> bool {
    s.len() > 0 && forall|i: int| 0 <= i < s.len() ==> is_digit(#[trigger] s[i])
}

/// The number that the digits of `s` denote in base ten; 0 for no digits.
pub open spec fn decimal_value(s: Seq<char>) -> nat
    decreases s.len(),
{
    if s.len() == 0 {
        0
    } else {
        decimal_value(s.drop_last()) * 10 + digit_value(s.last())
    }
}

/// The ticket number that a file name stands for: the name is decimal
/// digits only, and their value fits in a `u32`. Leading zeros are allowed.
pub open spec fn ticket_id(name: Seq<char>) -> Option<u32> {
    if is_digits(name) && decimal_value(name) <= u32::MAX {
        Some(decimal_value(name) as u32)
    } else {
        None
    }
}

/// The decimal name of `n`, without leading zeros.
pub open spec fn decimal_text(n: nat) -> Seq<char>
    decreases n,
{
    if n < 10 {
        seq![digit_char(n)]
    } else {
        decimal_text(n / 10).push(digit_char(n % 10))
    }
}

/// A number's decimal name is digits only and denotes that number.
pub proof fn lemma_decimal_text(n: nat)
    ensures
        is_digits(decimal_text(n)),
        decimal_value(decimal_text(n)) == n,
        !decimal_text(n).contains('\n'),
        !decimal_text(n).contains(':'),
    decreases n,
{
    let t = decimal_text(n);
    if n < 10 {
        assert(t.drop_last() =~= Seq::<char>::empty());
        assert(decimal_value(t.drop_last()) == 0);
        assert(digit_value(digit_char(n)) == n);
    } else {
        lemma_decimal_text(n / 10);
        let head = decimal_text(n / 10);
        assert(t.drop_last() =~= head);
        assert(t.last() == digit_char(n % 10));
        assert(digit_value(digit_char(n % 10)) == n % 10);
        assert forall|i: int| 0 <= i < t.len() implies is_digit(#[trigger] t[i]) by {
            if i < head.len() {
                assert(t[i] == head[i]);
            }
        }
    }
    if t.contains('\n') {
        let k = choose|k: int| 0 <= k < t.len() && t[k] == '\n';
        assert(is_digit(t[k]));
    }
    if t.contains(':') {
        let k = choose|k: int| 0 <= k < t.len() && t[k] == ':';
        assert(is_digit(t[k]));
    }
}

/// The name that a ticket number is given names that number.
pub proof fn lemma_id_of_decimal_text(id: u32)
    ensures
        ticket_id(decimal_text(id as nat)) == Some(id),
{
    lemma_decimal_text(id as nat);
}

/// A longer run of digits with the same front denotes at least as much.
proof fn lemma_decimal_value_grows(s: Seq<char>, k: int)
    requires
        0 <= k <= s.len(),
    ensures
        decimal_value(s.take(k)) <= decimal_value(s),
    decreases s.len() - k,
{
    if k < s.len() {
        lemma_decimal_value_grows(s, k + 1);
        assert(s.take(k + 1).drop_last() =~= s.take(k));
    } else {
        assert(s.take(k) =~= s);
    }
}

/// The ticket number that `name` stands for, if it stands for one.
pub fn parse_id(name: &str) -> (id: Option<u32>)
    ensures
        id == ticket_id(name@),
{
    let chars = to_chars(name);
    if chars.len() == 0 {
        return None;
    }
    let mut value: u32 = 0;
    let mut i: usize = 0;
    while i < chars.len()
        invariant
            i <= chars.len(),
            chars@ == name@,
            forall|j: int| 0 <= j < i ==> is_digit(#[trigger] chars[j]),
            value == decimal_value(chars@.take(i as int)),
        decreases chars.len() - i,
    {
        let c = chars[i];
        if c < '0' || c > '9' {
            return None;
        }
        let d: u32 = (c as u32) - ('0' as u32);
        proof {
            assert(chars@.take(i + 1).drop_last() =~= chars@.take(i as int));
            assert(chars@.take(i + 1).last() == c);
            assert(d == digit_value(c));
            lemma_decimal_value_grows(chars@, i + 1);
        }
        if value > (u32::MAX - d) / 10 {
            assert(decimal_value(chars@.take(i + 1)) > u32::MAX);
            return None;
        }
        value = value * 10 + d;
        i += 1;
    }
    assert(chars@.take(i as int) =~= chars@);
    Some(value)
}

/// The decimal digit that stands for `d`, as a string of one character.
fn digit_str(d: u32) -> (s: &'static str)
    requires
        d < 10,
    ensures
        s@ == seq![digit_char(d as nat)],
{
    proof {
        reveal_strlit("0");
        reveal_strlit("1");
        reveal_strlit("2");
        reveal_strlit("3");
        reveal_strlit("4");
        reveal_strlit("5");
        reveal_strlit("6");
        reveal_strlit("7");
        reveal_strlit("8");
        reveal_strlit("9");
    }
    let s = if d == 0 {
        "0"
    } else if d == 1 {
        "1"
    } else if d == 2 {
        "2"
    } else if d == 3 {
        "3"
    } else if d == 4 {
        "4"
    } else if d == 5 {
        "5"
    } else if d == 6 {
        "6"
    } else if d == 7 {
        "7"
    } else if d == 8 {
        "8"
    } else {
        "9"
    };
    assert(s@ =~= seq![digit_char(d as nat)]);
    s
}

/// The decimal name of a ticket number.
pub fn id_text(id: u32) -> (name: String)
    ensures
        name@ == decimal_text(id as nat),
    decreases id,
{
    if id < 10 {
        String::from_str(digit_str(id))
    } else {
        let mut name = id_text(id / 10);
        name.append(digit_str(id % 10));
        assert(name@ =~= decimal_text(id as nat));
        name
    }
}

} // verus!
