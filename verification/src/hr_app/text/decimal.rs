use crate::hr_app::text::words::{is_space, is_word};
use vstd::prelude::*;
use vstd::string::StringExecFns;

verus! {

/// The character that writes the digit `digit`.
pub open spec fn digit_char(digit: nat) -> char {
    (48 + digit) as char
}

/// The decimal notation of `number`: no sign, no leading zero but for
/// zero itself.
pub open spec fn decimal(number: nat) -> Seq<char>
    decreases number,
{
    if number < 10 {
        seq![digit_char(number)]
    } else {
        decimal(number / 10).push(digit_char(number % 10))
    }
}

/// The text of one digit.
fn digit_text(digit: u64) -> (text: &'static str)
    requires
        digit < 10,
    ensures
        text@ == seq![digit_char(digit as nat)],
{
    proof {
        reveal_strlit("0");
        reveal_strlit("1");
        reveal_strlit("2");
        reveal_strlit("3");
        reveal_strlit("4");
        reveal_strlit("5");
        reveal_strlit("6");
        reveal_strlit("7");
        reveal_strlit("8");
        reveal_strlit("9");
    }
    let text = if digit == 0 {
        "0"
    } else if digit == 1 {
        "1"
    } else if digit == 2 {
        "2"
    } else if digit == 3 {
        "3"
    } else if digit == 4 {
        "4"
    } else if digit == 5 {
        "5"
    } else if digit == 6 {
        "6"
    } else if digit == 7 {
        "7"
    } else if digit == 8 {
        "8"
    } else {
        "9"
    };
    assert(text@ =~= seq![digit_char(digit as nat)]);
    text
}

/// Writes `number` in decimal notation.
pub fn render_decimal(number: u64) -> (text: String)
    ensures
        text@ == decimal(number as nat),
    decreases number,
{
    if number < 10 {
        String::from_str(digit_text(number))
    } else {
        let mut text = render_decimal(number / 10);
        text.append(digit_text(number % 10));
        assert(text@ =~= decimal(number as nat));
        text
    }
}

/// `c` is one of the ten digits.
pub open spec fn is_digit(c: char) -> bool {
    48 <= c as u32 <= 57
}

/// The number that the digit `c` writes.
pub open spec fn digit_value(c: char) -> nat {
    (c as u32 - 48) as nat
}

/// Every character of `text` is a digit.
pub open spec fn all_digits(text: Seq<char>) -> bool {
    forall|i: int| 0 <= i < text.len() ==> is_digit(#[trigger] text[i])
}

/// The number that a run of digits writes in decimal notation; 0 for the
/// empty run.
pub open spec fn digits_value(digits: Seq<char>) -> nat
    decreases digits.len(),
{
    if digits.len() == 0 {
        0
    } else {
        digits_value(digits.drop_last()) * 10 + digit_value(digits.last())
    }
}

/// `text` without the plus sign that may stand in front of it.
pub open spec fn unsigned_part(text: Seq<char>) -> Seq<char> {
    if text.len() > 0 && text[0] == '+' {
        text.drop_first()
    } else {
        text
    }
}

/// The number that `text` writes: after an optional plus sign, one or more
/// digits whose value fits in 64 bits. `None` for any other text.
pub open spec fn parse_decimal(text: Seq<char>) -> Option<u64> {
    let digits = unsigned_part(text);
    if digits.len() > 0 && all_digits(digits) && digits_value(digits) <= u64::MAX {
        Some(digits_value(digits) as u64)
    } else {
        None
    }
}

/// A run of digits writes at least what any of its beginnings writes.
proof fn lemma_value_grows(digits: Seq<char>, cut: int)
    requires
        0 <= cut <= digits.len(),
    ensures
        digits_value(digits.take(cut)) <= digits_value(digits),
    decreases digits.len() - cut,
{
    if cut == digits.len() {
        assert(digits.take(cut) =~= digits);
    } else {
        lemma_value_grows(digits.drop_last(), cut);
        assert(digits.drop_last().take(cut) =~= digits.take(cut));
    }
}

/// Reads the number that `text` writes in decimal notation.
pub fn parse_u64(text: &str) -> (parsed: Option<u64>)
    ensures
        parsed == parse_decimal(text@),
{
    let ghost all = text@;
    let ghost start: int = if all.len() > 0 && all[0] == '+' {
        1
    } else {
        0
    };
    let mut value: u64 = 0;
    let mut at_start = true;
    let mut seen = false;
    for c in it: text.chars()
        invariant
            all == text@,
            it.seq() == all,
            start == (if all.len() > 0 && all[0] == '+' {
                1int
            } else {
                0int
            }),
            at_start == (it.index() == 0),
            it.index() > 0 ==> start <= it.index(),
            seen == (it.index() > start),
            it.index() > 0 ==> all_digits(all.subrange(start, it.index())),
            it.index() > 0 ==> value == digits_value(all.subrange(start, it.index())),
            it.index() == 0 ==> value == 0,
    {
        let ghost index = it.index();
        let ghost digits = unsigned_part(all);
        proof {
            assert(digits =~= all.subrange(start, all.len() as int));
        }
        if at_start && c == '+' {
            at_start = false;
            proof {
                assert(all.subrange(start, index + 1) =~= Seq::<char>::empty());
            }
        } else {
            at_start = false;
            let code = c as u32;
            if code < 48 || code > 57 {
                proof {
                    assert(digits[index - start] == c);
                }
                return None;
            }
            let digit = (code - 48) as u64;
            proof {
                let before = all.subrange(start, index);
                let after = all.subrange(start, index + 1);
                if index == 0 {
                    assert(before =~= Seq::<char>::empty());
                }
                assert(after.drop_last() =~= before);
                assert(after.last() == c);
                assert(digits_value(after) == digits_value(before) * 10 + digit);
                assert(digits.take(index + 1 - start) =~= after);
                lemma_value_grows(digits, index + 1 - start);
            }
            if value > (u64::MAX - digit) / 10 {
                return None;
            }
            value = value * 10 + digit;
            seen = true;
        }
    }
    proof {
        let digits = unsigned_part(all);
        assert(digits =~= all.subrange(start, all.len() as int));
        if !seen {
            assert(digits.len() == 0);
        }
    }
    if seen {
        Some(value)
    } else {
        None
    }
}

/// The decimal notation of a number is a run of digits that writes it.
proof fn lemma_decimal_digits(number: nat)
    ensures
        decimal(number).len() > 0,
        all_digits(decimal(number)),
        digits_value(decimal(number)) == number,
    decreases number,
{
    if number < 10 {
        let text = decimal(number);
        assert(text.drop_last() =~= Seq::<char>::empty());
        assert(digits_value(text) == digits_value(text.drop_last()) * 10 + digit_value(
            text.last(),
        ));
    } else {
        lemma_decimal_digits(number / 10);
        let text = decimal(number);
        assert(text.drop_last() =~= decimal(number / 10));
        assert forall|i: int| 0 <= i < text.len() implies is_digit(#[trigger] text[i]) by {
            if i < text.len() - 1 {
                assert(text[i] == decimal(number / 10)[i]);
            }
        }
    }
}

/// The decimal notation of a number is one word.
pub proof fn law_decimal_is_a_word(number: nat)
    ensures
        is_word(decimal(number)),
{
    lemma_decimal_digits(number);
    let text = decimal(number);
    assert forall|i: int| 0 <= i < text.len() implies !is_space(#[trigger] text[i]) by {
        assert(is_digit(text[i]));
    }
}

/// A number that is written and read again is the same number.
pub proof fn law_decimal_round_trip(number: u64)
    ensures
        parse_decimal(decimal(number as nat)) == Some(number),
{
    lemma_decimal_digits(number as nat);
    let text = decimal(number as nat);
    assert(is_digit(text[0]));
    assert(unsigned_part(text) == text);
}

} // verus!
