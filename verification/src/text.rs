//! Plain text: decimal numerals, escaped backticks, and lists of characters.
use vstd::prelude::*;

verus! {

/// `String::push` adds one character at the end.
pub assume_specification[ std::string::String::push ](s: &mut std::string::String, c: char)
    ensures
        final(s)@ == old(s)@.push(c),
;

/// The character that stands for a digit below ten.
pub open spec fn digit(d: nat) -> char {
    if d == 0 {
        '0'
    } else if d == 1 {
        '1'
    } else if d == 2 {
        '2'
    } else if d == 3 {
        '3'
    } else if d == 4 {
        '4'
    } else if d == 5 {
        '5'
    } else if d == 6 {
        '6'
    } else if d == 7 {
        '7'
    } else if d == 8 {
        '8'
    } else {
        '9'
    }
}

/// The decimal numeral of `n`, without leading zeros.
pub open spec fn decimal(n: nat) -> Seq<char>
    decreases n,
{
    if n < 10 {
        seq![digit(n)]
    } else {
        decimal(n / 10).push(digit(n % 10))
    }
}

fn digit_char(d: usize) -> (c: char)
    requires
        d < 10,
    ensures
        c == digit(d as nat),
{
    if d == 0 {
        '0'
    } else if d == 1 {
        '1'
    } else if d == 2 {
        '2'
    } else if d == 3 {
        '3'
    } else if d == 4 {
        '4'
    } else if d == 5 {
        '5'
    } else if d == 6 {
        '6'
    } else if d == 7 {
        '7'
    } else if d == 8 {
        '8'
    } else {
        '9'
    }
}

/// The decimal numeral of `n`.
pub fn decimal_string(n: usize) -> (r: String)
    ensures
        r@ == decimal(n as nat),
    decreases n,
{
    if n < 10 {
        let mut r = String::new();
        r.push(digit_char(n));
        r
    } else {
        let mut r = decimal_string(n / 10);
        r.push(digit_char(n % 10));
        r
    }
}

/// `text` with a backslash put before every backtick.
pub open spec fn escape_backticks(text: Seq<char>) -> Seq<char>
    decreases text.len(),
{
    if text.len() == 0 {
        Seq::empty()
    } else if text.last() == '`' {
        escape_backticks(text.drop_last()).push('\\').push('`')
    } else {
        escape_backticks(text.drop_last()).push(text.last())
    }
}

/// Puts a backslash before every backtick of `text`.
pub fn escape_backticks_in(text: &str) -> (r: String)
    ensures
        r@ == escape_backticks(text@),
{
    let mut r = String::new();
    assert(text@.take(0) =~= Seq::<char>::empty());
    for c in it: text.chars()
        invariant
            it.seq() == text@,
            r@ == escape_backticks(text@.take(it.index())),
    {
        assert(text@.take(it.index() + 1).drop_last() =~= text@.take(it.index()));
        if c == '`' {
            r.push('\\');
        }
        r.push(c);
    }
    assert(text@.take(text@.len() as int) =~= text@);
    r
}

/// Two pieces of text, one after the other.
pub fn joined(a: &str, b: &str) -> (r: String)
    ensures
        r@ == a@ + b@,
{
    let mut r = a.to_owned();
    r.append(b);
    r
}

/// Whether two pieces of text are the same.
pub fn same_text(a: &str, b: &str) -> (r: bool)
    ensures
        r == (a@ == b@),
{
    let a = a.to_owned();
    let b = b.to_owned();
    a == b
}

/// Whether there is no character.
pub fn is_no_text(text: &str) -> (r: bool)
    ensures
        r == (text@.len() == 0),
{
    proof {
        reveal_strlit("");
        assert(text@ =~= ""@ <==> text@.len() == 0);
    }
    same_text(text, "")
}

/// Distinct numbers have distinct numerals.
pub proof fn decimal_injective(a: nat, b: nat)
    ensures
        decimal(a) == decimal(b) ==> a == b,
    decreases a,
{
    if decimal(a) == decimal(b) {
        decimal_ends(a);
        decimal_ends(b);
        assert(digit(a % 10) == digit(b % 10));
        assert(a % 10 == b % 10);
        if a < 10 && b < 10 {
        } else if a < 10 {
            decimal_ends(b / 10);
            assert(decimal(b).len() >= 2);
        } else if b < 10 {
            decimal_ends(a / 10);
            assert(decimal(a).len() >= 2);
        } else {
            assert(decimal(a).drop_last() =~= decimal(a / 10));
            assert(decimal(b).drop_last() =~= decimal(b / 10));
            decimal_injective(a / 10, b / 10);
        }
    }
}

/// A numeral is not empty, and its last character is the digit of the units.
proof fn decimal_ends(n: nat)
    ensures
        decimal(n).len() > 0,
        decimal(n).last() == digit(n % 10),
{
    if n >= 10 {
    } else {
        assert(n % 10 == n);
    }
}

/// Every character of a numeral is a digit.
pub proof fn decimal_is_digits(n: nat, i: int)
    requires
        0 <= i < decimal(n).len(),
    ensures
        is_digit(decimal(n)[i]),
    decreases n,
{
    if n >= 10 {
        if i < decimal(n / 10).len() {
            decimal_is_digits(n / 10, i);
        }
    }
}

pub open spec fn is_digit(c: char) -> bool {
    '0' <= c && c <= '9'
}

} // verus!
