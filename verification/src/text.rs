//! Small tools on texts: scalars of a string, comparison with a literal, and
//! numbers in decimal digits.

use vstd::prelude::*;
use vstd::string::*;

verus! {

/// The scalars of `text`, in order.
pub fn scalars(text: &str) -> (chars: Vec<char>)
    ensures
        chars@ == text@,
{
    let mut chars: Vec<char> = Vec::new();
    for c in it: text.chars()
        invariant
            it.seq() == text@,
            chars@ == it.seq().subrange(0, it.index()),
    {
        chars.push(c);
    }
    assert(text@.subrange(0, text@.len() as int) =~= text@);
    chars
}

/// The scalar at `pos`.
pub fn char_at(chars: &Vec<char>, pos: usize) -> (c: char)
    requires
        pos < chars.len(),
    ensures
        c == chars@[pos as int],
{
    chars[pos]
}

/// Whether the scalars `chars[from..to]` spell `literal`.
pub fn same_text(chars: &Vec<char>, from: usize, to: usize, literal: &str) -> (same: bool)
    requires
        from <= to <= chars.len(),
    ensures
        same == (chars@.subrange(from as int, to as int) == literal@),
{
    let count = literal.unicode_len();
    if to - from != count {
        return false;
    }
    let mut i: usize = 0;
    while i < count
        invariant
            count == literal@.len(),
            from + count == to,
            to <= chars.len(),
            i <= count,
            forall|j: int| 0 <= j < i ==> chars@[from + j] == literal@[j],
        decreases count - i,
    {
        if chars[from + i] != literal.get_char(i) {
            assert(chars@.subrange(from as int, to as int)[i as int] != literal@[i as int]);
            return false;
        }
        i += 1;
    }
    assert(chars@.subrange(from as int, to as int) =~= literal@);
    true
}

/// The scalar that writes the decimal digit `digit`.
pub open spec fn digit_char(digit: nat) -> char {
    if digit == 0 {
        '0'
    } else if digit == 1 {
        '1'
    } else if digit == 2 {
        '2'
    } else if digit == 3 {
        '3'
    } else if digit == 4 {
        '4'
    } else if digit == 5 {
        '5'
    } else if digit == 6 {
        '6'
    } else if digit == 7 {
        '7'
    } else if digit == 8 {
        '8'
    } else {
        '9'
    }
}

/// The decimal digits of `number`, without leading zeros.
pub open spec fn spec_decimal_text(number: nat) -> Seq<char>
    decreases number,
{
    if number < 10 {
        seq![digit_char(number)]
    } else {
        spec_decimal_text(number / 10).push(digit_char(number % 10))
    }
}

/// The text of one decimal digit.
fn digit_text(digit: usize) -> (text: &'static str)
    requires
        digit < 10,
    ensures
        text@ == seq![digit_char(digit as nat)],
{
    proof {
        reveal_strlit("0");
        reveal_strlit("1");
        reveal_strlit("2");
        reveal_strlit("3");
        reveal_strlit("4");
        reveal_strlit("5");
        reveal_strlit("6");
        reveal_strlit("7");
        reveal_strlit("8");
        reveal_strlit("9");
    }
    let text = if digit == 0 {
        "0"
    } else if digit == 1 {
        "1"
    } else if digit == 2 {
        "2"
    } else if digit == 3 {
        "3"
    } else if digit == 4 {
        "4"
    } else if digit == 5 {
        "5"
    } else if digit == 6 {
        "6"
    } else if digit == 7 {
        "7"
    } else if digit == 8 {
        "8"
    } else {
        "9"
    };
    assert(text@ =~= seq![digit_char(digit as nat)]);
    text
}

/// Writes the decimal digits of `number` behind `text`.
pub fn append_decimal(text: &mut String, number: usize)
    ensures
        final(text)@ == old(text)@ + spec_decimal_text(number as nat),
    decreases number,
{
    if number >= 10 {
        append_decimal(text, number / 10);
    }
    let digit = digit_text(number % 10);
    text.append(digit);
    proof {
        if number >= 10 {
            assert(text@ =~= old(text)@ + spec_decimal_text(number as nat));
        } else {
            assert(text@ =~= old(text)@ + spec_decimal_text(number as nat));
        }
    }
}

/// `label` with the decimal digits of `number` behind it.
pub fn numbered(label: &str, number: usize) -> (text: String)
    ensures
        text@ == label@ + spec_decimal_text(number as nat),
{
    let mut text = String::from_str(label);
    append_decimal(&mut text, number);
    text
}

} // verus!
