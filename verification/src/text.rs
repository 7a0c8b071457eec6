//! Texts, and the decimal text of unsigned numbers.

use vstd::prelude::*;
use vstd::string::{StrSliceExecFns, StringExecFns};

verus! {

/// The texts of a sequence of strings.
pub open spec fn texts_of(strings: Seq<String>) -> Seq<Seq<char>> {
    Seq::new(strings.len(), |i: int| strings[i]@)
}

/// The character of the decimal digit `digit`.
pub open spec fn digit_char(digit: int) -> char {
    if digit == 0 {
        '0'
    } else if digit == 1 {
        '1'
    } else if digit == 2 {
        '2'
    } else if digit == 3 {
        '3'
    } else if digit == 4 {
        '4'
    } else if digit == 5 {
        '5'
    } else if digit == 6 {
        '6'
    } else if digit == 7 {
        '7'
    } else if digit == 8 {
        '8'
    } else {
        '9'
    }
}

/// The decimal digits of `number`, most significant first, without
/// leading zeros; the digits of zero are the single digit `0`.
pub open spec fn decimal_digits(number: nat) -> Seq<char>
    decreases number,
{
    if number < 10 {
        seq![digit_char(number as int)]
    } else {
        decimal_digits(number / 10).push(digit_char((number % 10) as int))
    }
}

/// The text of one decimal digit.
pub fn digit_text(digit: u8) -> (text: &'static str)
    requires
        digit < 10,
    ensures
        text@ == seq![digit_char(digit as int)],
{
    proof {
        reveal_strlit("0");
        reveal_strlit("1");
        reveal_strlit("2");
        reveal_strlit("3");
        reveal_strlit("4");
        reveal_strlit("5");
        reveal_strlit("6");
        reveal_strlit("7");
        reveal_strlit("8");
        reveal_strlit("9");
    }
    let text: &'static str = if digit == 0 {
        "0"
    } else if digit == 1 {
        "1"
    } else if digit == 2 {
        "2"
    } else if digit == 3 {
        "3"
    } else if digit == 4 {
        "4"
    } else if digit == 5 {
        "5"
    } else if digit == 6 {
        "6"
    } else if digit == 7 {
        "7"
    } else if digit == 8 {
        "8"
    } else {
        "9"
    };
    assert(text@ =~= seq![digit_char(digit as int)]);
    text
}

/// The decimal text of `number`, without leading zeros.
pub fn decimal_text(number: u64) -> (text: String)
    ensures
        text@ == decimal_digits(number as nat),
    decreases number,
{
    if number < 10 {
        String::from_str(digit_text(number as u8))
    } else {
        let mut text: String = decimal_text(number / 10);
        text.append(digit_text((number % 10) as u8));
        text
    }
}

/// `c` is a decimal digit.
pub open spec fn is_digit(c: char) -> bool {
    '0' <= c <= '9'
}

/// The number that the decimal digit `c` stands for.
pub open spec fn digit_of(c: char) -> nat {
    (c as u32 - '0' as u32) as nat
}

/// Every character of `text` is a decimal digit.
pub open spec fn all_digits(text: Seq<char>) -> bool {
    forall|i: int| 0 <= i < text.len() ==> is_digit(#[trigger] text[i])
}

/// The number that the decimal digits `digits` write, most significant
/// digit first; zero for no digits.
pub open spec fn digits_value(digits: Seq<char>) -> nat
    decreases digits.len(),
{
    if digits.len() == 0 {
        0
    } else {
        digits_value(digits.drop_last()) * 10 + digit_of(digits.last())
    }
}

/// `digits` is written as a number is written: at least one digit, and no
/// zero in front of another digit.
pub open spec fn is_decimal(digits: Seq<char>) -> bool {
    &&& digits.len() >= 1
    &&& all_digits(digits)
    &&& digits.len() == 1 || digits[0] != '0'
}

/// The end of the run of digits of `text` that begins at index `from`: the
/// index of the first character at or after `from` that is no digit, or the
/// length of `text` if there is none.
pub open spec fn digit_run_end(text: Seq<char>, from: int) -> int
    decreases text.len() - from,
{
    if from < 0 || from >= text.len() {
        text.len() as int
    } else if !is_digit(text[from]) {
        from
    } else {
        digit_run_end(text, from + 1)
    }
}

/// The decimal digits of a number are written as a number is written.
pub proof fn lemma_decimal_digits_are_digits(number: nat)
    ensures
        is_decimal(decimal_digits(number)),
        number < 10 <==> decimal_digits(number).len() == 1,
        number < 100 ==> decimal_digits(number).len() <= 2,
        number < 1000 ==> decimal_digits(number).len() <= 3,
    decreases number,
{
    if number >= 10 {
        lemma_decimal_digits_are_digits(number / 10);
        let front: Seq<char> = decimal_digits(number / 10);
        assert(decimal_digits(number)[0] == front[0]);
        assert forall|i: int| 0 <= i < decimal_digits(number).len() implies is_digit(
            #[trigger] decimal_digits(number)[i],
        ) by {
            if i < front.len() {
                assert(decimal_digits(number)[i] == front[i]);
            }
        }
    }
}

/// The decimal digits of a number write that number.
pub proof fn lemma_digits_value_of_decimal_digits(number: nat)
    ensures
        digits_value(decimal_digits(number)) == number,
    decreases number,
{
    if number < 10 {
        assert(decimal_digits(number).drop_last() =~= Seq::<char>::empty());
        assert(digits_value(decimal_digits(number).drop_last()) == 0);
    } else {
        lemma_digits_value_of_decimal_digits(number / 10);
        assert(decimal_digits(number).drop_last() =~= decimal_digits(number / 10));
    }
}

/// Two numbers with the same decimal digits are the same number.
pub proof fn lemma_decimal_digits_injective(one: nat, other: nat)
    requires
        decimal_digits(one) == decimal_digits(other),
    ensures
        one == other,
{
    lemma_digits_value_of_decimal_digits(one);
    lemma_digits_value_of_decimal_digits(other);
}

/// Digits that are written as a number is written are the decimal digits of
/// the number that they write.
pub proof fn lemma_decimal_digits_of_digits_value(digits: Seq<char>)
    requires
        is_decimal(digits),
    ensures
        decimal_digits(digits_value(digits)) == digits,
        digits[0] != '0' ==> digits_value(digits) >= 1,
    decreases digits.len(),
{
    let front: Seq<char> = digits.drop_last();
    if digits.len() == 1 {
        assert(front =~= Seq::<char>::empty());
        assert(digits_value(front) == 0);
        assert(is_digit(digits[0]));
        assert(decimal_digits(digits_value(digits)) =~= digits);
    } else {
        assert(front[0] == digits[0]);
        assert forall|i: int| 0 <= i < front.len() implies is_digit(#[trigger] front[i]) by {
            assert(front[i] == digits[i]);
        }
        lemma_decimal_digits_of_digits_value(front);
        assert(is_digit(digits[digits.len() - 1]));
        let value: nat = digits_value(digits);
        assert(value == digits_value(front) * 10 + digit_of(digits.last()));
        assert(value / 10 == digits_value(front));
        assert(value % 10 == digit_of(digits.last()));
        assert(decimal_digits(value) =~= digits);
    }
}

/// The run of digits that begins at `from` ends between `from` and the end
/// of the text; it holds digits only, and what follows it is no digit.
pub proof fn lemma_digit_run_end(text: Seq<char>, from: int)
    requires
        0 <= from <= text.len(),
    ensures
        from <= digit_run_end(text, from) <= text.len(),
        all_digits(text.subrange(from, digit_run_end(text, from))),
        digit_run_end(text, from) < text.len() ==> !is_digit(text[digit_run_end(text, from)]),
    decreases text.len() - from,
{
    if from < text.len() && is_digit(text[from]) {
        lemma_digit_run_end(text, from + 1);
        let end: int = digit_run_end(text, from);
        assert forall|i: int| 0 <= i < end - from implies is_digit(
            #[trigger] text.subrange(from, end)[i],
        ) by {
            if i > 0 {
                assert(text.subrange(from + 1, end)[i - 1] == text[from + i]);
            }
        }
    }
}

/// A stretch of digits that no digit follows is the run of digits at its start.
pub proof fn lemma_digit_run_end_is(text: Seq<char>, from: int, end: int)
    requires
        0 <= from <= end <= text.len(),
        all_digits(text.subrange(from, end)),
        end < text.len() ==> !is_digit(text[end]),
    ensures
        digit_run_end(text, from) == end,
    decreases end - from,
{
    if from < end {
        assert(text.subrange(from, end)[0] == text[from]);
        assert forall|i: int| 0 <= i < end - from - 1 implies is_digit(
            #[trigger] text.subrange(from + 1, end)[i],
        ) by {
            assert(text.subrange(from, end)[i + 1] == text[from + 1 + i]);
        }
        lemma_digit_run_end_is(text, from + 1, end);
    }
}

/// Tells whether `c` is a decimal digit.
pub fn is_digit_char(c: char) -> (digit: bool)
    ensures
        digit == is_digit(c),
{
    '0' <= c && c <= '9'
}

/// Reads the number of at most three digits that stands in `text` at the
/// run of digits that begins at index `from`, together with the index at
/// which the run ends. There is no number where the run is empty, where
/// it is longer than three digits, and where a zero stands in front of
/// another digit.
pub fn read_short_number(text: &str, length: usize, from: usize) -> (read: (Option<u16>, usize))
    requires
        length == text@.len(),
        from <= length,
    ensures
        read.1 == digit_run_end(text@, from as int),
        from <= read.1 <= length,
        match read.0 {
            Some(number) => {
                &&& number < 1000
                &&& text@.subrange(from as int, read.1 as int) == decimal_digits(number as nat)
            },
            None => forall|number: nat|
                number < 1000 ==> text@.subrange(from as int, read.1 as int) != decimal_digits(
                    number,
                ),
        },
{
    let mut end: usize = from;
    while end < length && is_digit_char(text.get_char(end))
        invariant
            from <= end <= length,
            length == text@.len(),
            digit_run_end(text@, end as int) == digit_run_end(text@, from as int),
        decreases length - end,
    {
        end = end + 1;
    }
    let ghost run: Seq<char> = text@.subrange(from as int, end as int);
    proof {
        lemma_digit_run_end(text@, from as int);
        assert forall|number: nat| number < 1000 && run == decimal_digits(number) implies is_decimal(
            run,
        ) && run.len() <= 3 by {
            lemma_decimal_digits_are_digits(number);
        }
    }
    if end == from || end - from > 3 {
        return (None, end);
    }
    if end - from > 1 && text.get_char(from) == '0' {
        proof {
            assert(run[0] == text@[from as int]);
        }
        return (None, end);
    }
    let mut number: u16 = 0;
    let mut at: usize = from;
    proof {
        assert(text@.subrange(from as int, at as int) =~= Seq::<char>::empty());
    }
    while at < end
        invariant
            from <= at <= end <= length,
            end - from <= 3,
            length == text@.len(),
            all_digits(text@.subrange(from as int, end as int)),
            number == digits_value(text@.subrange(from as int, at as int)),
            at - from == 0 ==> number == 0,
            at - from == 1 ==> number < 10,
            at - from == 2 ==> number < 100,
            at - from == 3 ==> number < 1000,
        decreases end - at,
    {
        let c: char = text.get_char(at);
        proof {
            assert(text@.subrange(from as int, end as int)[at - from] == c);
            assert(text@.subrange(from as int, at + 1).drop_last() =~= text@.subrange(
                from as int,
                at as int,
            ));
            assert(text@.subrange(from as int, at + 1).last() == c);
        }
        number = number * 10 + (c as u32 - '0' as u32) as u16;
        at = at + 1;
    }
    proof {
        assert(run[0] == text@[from as int]);
        lemma_decimal_digits_of_digits_value(run);
    }
    (Some(number), end)
}

} // verus!
