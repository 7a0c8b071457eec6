//! IPv4 addresses as 32-bit values, and their dotted-quad text.

use crate::text::{
    decimal_digits, decimal_text, digit_run_end, lemma_decimal_digits_are_digits,
    lemma_decimal_digits_injective, lemma_digit_run_end_is, read_short_number,
};
use vstd::prelude::*;
use vstd::string::{StrSliceExecFns, StringExecFns};

verus! {

/// The octet of `address` at `index`, counted from the most significant
/// octet (index 0) to the least significant one (index 3).
pub open spec fn octet_of(address: u32, index: int) -> u8 {
    if index == 0 {
        (address >> 24u32) as u8
    } else if index == 1 {
        ((address >> 16u32) & 0xffu32) as u8
    } else if index == 2 {
        ((address >> 8u32) & 0xffu32) as u8
    } else {
        (address & 0xffu32) as u8
    }
}

/// The address whose four octets, most significant first, are `a`, `b`, `c`, `d`.
pub open spec fn address_of(a: u8, b: u8, c: u8, d: u8) -> u32 {
    ((a as u32) << 24u32) | ((b as u32) << 16u32) | ((c as u32) << 8u32) | (d as u32)
}

/// Builds an address from its four octets, most significant first.
pub fn from_octets(a: u8, b: u8, c: u8, d: u8) -> (address: u32)
    ensures
        address == address_of(a, b, c, d),
        address == a as int * 0x100_0000 + b as int * 0x1_0000 + c as int * 0x100 + d as int,
        octet_of(address, 0) == a,
        octet_of(address, 1) == b,
        octet_of(address, 2) == c,
        octet_of(address, 3) == d,
{
    let address: u32 = ((a as u32) << 24u32) | ((b as u32) << 16u32) | ((c as u32) << 8u32) | (
    d as u32);
    proof {
        lemma_octets_of_address(a, b, c, d);
    }
    address
}

/// Splits an address into its four octets, most significant first.
pub fn octets(address: u32) -> (parts: [u8; 4])
    ensures
        forall|i: int| 0 <= i < 4 ==> parts[i] == octet_of(address, i),
        address_of(parts[0], parts[1], parts[2], parts[3]) == address,
{
    proof {
        lemma_address_of_octets(address);
    }
    assert((address >> 24u32) <= 0xffu32) by (bit_vector);
    assert(((address >> 16u32) & 0xffu32) <= 0xffu32) by (bit_vector);
    assert(((address >> 8u32) & 0xffu32) <= 0xffu32) by (bit_vector);
    assert((address & 0xffu32) <= 0xffu32) by (bit_vector);
    [
        (address >> 24u32) as u8,
        ((address >> 16u32) & 0xffu32) as u8,
        ((address >> 8u32) & 0xffu32) as u8,
        (address & 0xffu32) as u8,
    ]
}

/// The dotted-quad text of `address`: the decimal digits of its four
/// octets, most significant octet first, with a dot between neighbours.
pub open spec fn dotted_quad(address: u32) -> Seq<char> {
    decimal_digits(octet_of(address, 0) as nat) + seq!['.'] + decimal_digits(
        octet_of(address, 1) as nat,
    ) + seq!['.'] + decimal_digits(octet_of(address, 2) as nat) + seq!['.'] + decimal_digits(
        octet_of(address, 3) as nat,
    )
}

/// The dotted-quad text of `address`, such as `192.168.100.5`.
pub fn format_address(address: u32) -> (text: String)
    ensures
        text@ == dotted_quad(address),
{
    let parts: [u8; 4] = octets(address);
    proof {
        reveal_strlit(".");
    }
    let mut text: String = decimal_text(parts[0] as u64);
    text.append(".");
    text.append(decimal_text(parts[1] as u64).as_str());
    text.append(".");
    text.append(decimal_text(parts[2] as u64).as_str());
    text.append(".");
    text.append(decimal_text(parts[3] as u64).as_str());
    assert("."@ =~= seq!['.']);
    text
}

/// The longest dotted-quad text: four octets of three digits, and three dots.
pub const MAX_TEXT_LENGTH: usize = 15;

/// The decimal digits of the octets of `parts`, in order, with a dot
/// between neighbours.
pub open spec fn dotted(parts: Seq<u8>) -> Seq<char>
    decreases parts.len(),
{
    if parts.len() == 0 {
        Seq::empty()
    } else if parts.len() == 1 {
        decimal_digits(parts[0] as nat)
    } else {
        decimal_digits(parts[0] as nat) + seq!['.'] + dotted(parts.drop_first())
    }
}

/// The four octets of `address`, most significant first.
pub open spec fn octets_of(address: u32) -> Seq<u8> {
    seq![
        octet_of(address, 0),
        octet_of(address, 1),
        octet_of(address, 2),
        octet_of(address, 3),
    ]
}

/// The address that `text` is the dotted-quad text of, if it is that of any.
pub open spec fn parsed_address(text: Seq<char>) -> Option<u32> {
    if exists|address: u32| dotted_quad(address) == text {
        Some(choose|address: u32| dotted_quad(address) == text)
    } else {
        None
    }
}

/// The dotted-quad text of an address is its four octets, dotted.
pub proof fn lemma_dotted_quad_is_dotted(address: u32)
    ensures
        dotted_quad(address) == dotted(octets_of(address)),
{
    let parts: Seq<u8> = octets_of(address);
    let three: Seq<u8> = parts.drop_first();
    let two: Seq<u8> = three.drop_first();
    let one: Seq<u8> = two.drop_first();
    assert(dotted(one) == decimal_digits(parts[3] as nat));
    assert(dotted(two) == decimal_digits(parts[2] as nat) + seq!['.'] + dotted(one));
    assert(dotted(three) == decimal_digits(parts[1] as nat) + seq!['.'] + dotted(two));
    assert(dotted(parts) == decimal_digits(parts[0] as nat) + seq!['.'] + dotted(three));
    assert(dotted_quad(address) =~= dotted(parts));
}

/// How a dotted text begins: with the decimal digits of its first octet,
/// which are the whole run of digits at its start; the text ends there if
/// that was the only octet, and goes on with a dot and the other octets,
/// dotted, if it was not. Stated of a text that holds the dotted text from
/// index `from` on.
pub proof fn lemma_dotted_head(text: Seq<char>, from: int, parts: Seq<u8>)
    requires
        0 <= from <= text.len(),
        parts.len() >= 1,
        text.skip(from) == dotted(parts),
    ensures
        digit_run_end(text, from) == from + decimal_digits(parts[0] as nat).len(),
        text.subrange(from, digit_run_end(text, from)) == decimal_digits(parts[0] as nat),
        parts.len() == 1 ==> digit_run_end(text, from) == text.len(),
        parts.len() > 1 ==> {
            &&& digit_run_end(text, from) < text.len()
            &&& text[digit_run_end(text, from)] == '.'
            &&& text.skip(digit_run_end(text, from) + 1) == dotted(parts.drop_first())
        },
{
    let head: Seq<char> = decimal_digits(parts[0] as nat);
    let end: int = from + head.len();
    let tail: Seq<char> = text.skip(from);
    lemma_decimal_digits_are_digits(parts[0] as nat);
    if parts.len() == 1 {
        assert(tail.len() == head.len());
    } else {
        assert(tail == head + seq!['.'] + dotted(parts.drop_first()));
        assert(tail[head.len() as int] == '.');
        assert(text[end] == tail[end - from]);
        assert(text.skip(end + 1) =~= dotted(parts.drop_first())) by {
            assert(text.skip(end + 1) =~= tail.skip(end - from + 1));
        }
    }
    assert(text.subrange(from, end) =~= head) by {
        assert(text.subrange(from, end) =~= tail.take(head.len() as int));
    }
    lemma_digit_run_end_is(text, from, end);
}

/// Two sequences of equally many octets with the same dotted text are the
/// same sequence.
pub proof fn lemma_dotted_injective(one: Seq<u8>, other: Seq<u8>)
    requires
        one.len() == other.len(),
        dotted(one) == dotted(other),
    ensures
        one == other,
    decreases one.len(),
{
    if one.len() >= 1 {
        let text: Seq<char> = dotted(one);
        assert(text.skip(0) =~= text);
        lemma_dotted_head(text, 0, one);
        lemma_dotted_head(text, 0, other);
        lemma_decimal_digits_injective(one[0] as nat, other[0] as nat);
        if one.len() > 1 {
            lemma_dotted_injective(one.drop_first(), other.drop_first());
        }
        assert(one =~= seq![one[0]] + one.drop_first());
        assert(other =~= seq![other[0]] + other.drop_first());
    } else {
        assert(one =~= other);
    }
}

/// Two addresses with the same dotted-quad text are the same address, so
/// that a text is the dotted-quad text of one address at most.
pub proof fn lemma_dotted_quad_injective(one: u32, other: u32)
    requires
        dotted_quad(one) == dotted_quad(other),
    ensures
        one == other,
{
    lemma_dotted_quad_is_dotted(one);
    lemma_dotted_quad_is_dotted(other);
    lemma_dotted_injective(octets_of(one), octets_of(other));
    assert(octets_of(one)[0] == octets_of(other)[0]);
    assert(octets_of(one)[1] == octets_of(other)[1]);
    assert(octets_of(one)[2] == octets_of(other)[2]);
    assert(octets_of(one)[3] == octets_of(other)[3]);
    lemma_address_of_octets(one);
    lemma_address_of_octets(other);
}

/// A dotted-quad text has at least seven characters and at most fifteen.
pub proof fn lemma_dotted_quad_length(address: u32)
    ensures
        7 <= dotted_quad(address).len() <= MAX_TEXT_LENGTH,
{
    lemma_decimal_digits_are_digits(octet_of(address, 0) as nat);
    lemma_decimal_digits_are_digits(octet_of(address, 1) as nat);
    lemma_decimal_digits_are_digits(octet_of(address, 2) as nat);
    lemma_decimal_digits_are_digits(octet_of(address, 3) as nat);
}

/// Reading a text as an address undoes writing the address as a text.
pub proof fn lemma_parsed_dotted_quad(address: u32)
    ensures
        parsed_address(dotted_quad(address)) == Some(address),
{
    let found: u32 = choose|found: u32| dotted_quad(found) == dotted_quad(address);
    lemma_dotted_quad_injective(found, address);
}

/// Reads `count` octets, dotted, that fill `text` from index `from` to its end.
fn parse_dotted(text: &str, length: usize, from: usize, count: usize) -> (parsed: Option<Vec<u8>>)
    requires
        length == text@.len(),
        from <= length,
        count >= 1,
    ensures
        match parsed {
            Some(parts) => parts@.len() == count && text@.skip(from as int) == dotted(parts@),
            None => forall|parts: Seq<u8>|
                parts.len() == count ==> text@.skip(from as int) != dotted(parts),
        },
    decreases count,
{
    let read: (Option<u16>, usize) = read_short_number(text, length, from);
    let end: usize = read.1;
    proof {
        assert forall|parts: Seq<u8>|
            parts.len() == count && text@.skip(from as int) == dotted(parts) implies {
            &&& text@.subrange(from as int, end as int) == decimal_digits(parts[0] as nat)
            &&& count == 1 ==> end == length
            &&& count > 1 ==> end < length && text@[end as int] == '.' && text@.skip(end + 1)
                == dotted(parts.drop_first())
        } by {
            lemma_dotted_head(text@, from as int, parts);
        }
    }
    let number: u16 = match read.0 {
        Some(number) => number,
        None => {
            return None;
        },
    };
    if number > 255 {
        proof {
            assert forall|parts: Seq<u8>| parts.len() == count implies text@.skip(from as int)
                != dotted(parts) by {
                if text@.skip(from as int) == dotted(parts) {
                    lemma_decimal_digits_injective(number as nat, parts[0] as nat);
                }
            }
        }
        return None;
    }
    let octet: u8 = number as u8;
    proof {
        assert forall|parts: Seq<u8>|
            parts.len() == count && text@.skip(from as int) == dotted(parts) implies parts[0]
            == octet by {
            lemma_decimal_digits_injective(octet as nat, parts[0] as nat);
        }
    }
    if count == 1 {
        if end != length {
            return None;
        }
        let mut parts: Vec<u8> = Vec::new();
        parts.push(octet);
        proof {
            assert(text@.skip(from as int) =~= text@.subrange(from as int, end as int));
        }
        return Some(parts);
    }
    if end >= length {
        return None;
    }
    if text.get_char(end) != '.' {
        return None;
    }
    match parse_dotted(text, length, end + 1, count - 1) {
        None => {
            proof {
                assert forall|parts: Seq<u8>| parts.len() == count implies text@.skip(from as int)
                    != dotted(parts) by {
                    if text@.skip(from as int) == dotted(parts) {
                        assert(parts.drop_first().len() == count - 1);
                    }
                }
            }
            None
        },
        Some(rest) => {
            let mut parts: Vec<u8> = rest;
            proof {
                let after: Seq<u8> = parts@.insert(0, octet);
                assert(after.drop_first() =~= parts@);
                assert(text@.skip(from as int) =~= text@.subrange(from as int, end as int)
                    + seq!['.'] + text@.skip(end + 1));
            }
            parts.insert(0, octet);
            Some(parts)
        },
    }
}

/// Reads a dotted-quad text as an address. A text is read exactly if it is
/// what `format_address` writes for some address, and is then read as that
/// address: four numbers from 0 to 255, written without sign, without
/// space and without a zero in front of another digit, with one dot
/// between neighbours and nothing else.
pub fn parse_address(text: &str) -> (address: Option<u32>)
    ensures
        address == parsed_address(text@),
        match address {
            Some(found) => text@ == dotted_quad(found),
            None => forall|other: u32| text@ != dotted_quad(other),
        },
{
    let length: usize = text.unicode_len();
    if length > MAX_TEXT_LENGTH {
        proof {
            assert forall|other: u32| text@ != dotted_quad(other) by {
                lemma_dotted_quad_length(other);
            }
        }
        return None;
    }
    proof {
        assert(text@.skip(0) =~= text@);
        assert forall|other: u32| text@ == dotted_quad(other) implies text@.skip(0) == dotted(
            octets_of(other),
        ) by {
            lemma_dotted_quad_is_dotted(other);
        }
    }
    match parse_dotted(text, length, 0, 4) {
        None => {
            proof {
                assert forall|other: u32| text@ != dotted_quad(other) by {
                    if text@ == dotted_quad(other) {
                        assert(octets_of(other).len() == 4);
                    }
                }
            }
            None
        },
        Some(parts) => {
            let found: u32 = from_octets(parts[0], parts[1], parts[2], parts[3]);
            proof {
                assert(octets_of(found) =~= parts@);
                lemma_dotted_quad_is_dotted(found);
                lemma_parsed_dotted_quad(found);
            }
            Some(found)
        },
    }
}

/// Taking the octets of an address built from four octets gives those
/// octets back, and the address is their base-256 number.
pub proof fn lemma_octets_of_address(a: u8, b: u8, c: u8, d: u8)
    ensures
        octet_of(address_of(a, b, c, d), 0) == a,
        octet_of(address_of(a, b, c, d), 1) == b,
        octet_of(address_of(a, b, c, d), 2) == c,
        octet_of(address_of(a, b, c, d), 3) == d,
        address_of(a, b, c, d) == a as int * 0x100_0000 + b as int * 0x1_0000 + c as int * 0x100
            + d as int,
{
    let x: u32 = address_of(a, b, c, d);
    assert(x == ((a as u32) << 24u32) | ((b as u32) << 16u32) | ((c as u32) << 8u32) | (d as u32));
    assert((x >> 24u32) as u8 == a && ((x >> 16u32) & 0xffu32) as u8 == b && ((x >> 8u32)
        & 0xffu32) as u8 == c && (x & 0xffu32) as u8 == d && x == a as int * 0x100_0000 + b as int
        * 0x1_0000 + c as int * 0x100 + d as int) by (bit_vector)
        requires
            x == ((a as u32) << 24u32) | ((b as u32) << 16u32) | ((c as u32) << 8u32) | (d as u32),
    ;
}

/// Building an address from the octets of `address` gives `address` back.
pub proof fn lemma_address_of_octets(address: u32)
    ensures
        address_of(
            octet_of(address, 0),
            octet_of(address, 1),
            octet_of(address, 2),
            octet_of(address, 3),
        ) == address,
{
    let a: u8 = (address >> 24u32) as u8;
    let b: u8 = ((address >> 16u32) & 0xffu32) as u8;
    let c: u8 = ((address >> 8u32) & 0xffu32) as u8;
    let d: u8 = (address & 0xffu32) as u8;
    assert(((a as u32) << 24u32) | ((b as u32) << 16u32) | ((c as u32) << 8u32) | (d as u32)
        == address) by (bit_vector)
        requires
            a == (address >> 24u32) as u8,
            b == ((address >> 16u32) & 0xffu32) as u8,
            c == ((address >> 8u32) & 0xffu32) as u8,
            d == (address & 0xffu32) as u8,
    ;
}

} // verus!
