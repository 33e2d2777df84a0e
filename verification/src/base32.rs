//! The alphabet: 32 characters, one for each 5-bit symbol, and the rule that
//! a text holds letters of one case only.

use vstd::prelude::*;
use vstd::utf8::is_ascii_chars;
use crate::error::{Error, ErrorView};
use crate::symbol::{all_five_bit, values, U5};

verus! {

/// The character of each symbol, in the order of the symbols.
pub const CHARSET: [char; 32] = [
    'q', 'p', 'z', 'r', 'y', '9', 'x', '8',
    'g', 'f', '2', 't', 'v', 'd', 'w', '0',
    's', '3', 'j', 'n', '5', '4', 'k', 'h',
    'c', 'e', '6', 'm', 'u', 'a', '7', 'l',
];

/// The symbol of each ASCII character, by its code; -1 where the character
/// is not in the alphabet. A letter stands for the same symbol in both cases.
pub const CHARSET_REV: [i8; 128] = [
    -1, -1, -1, -1, -1, -1, -1, -1, -1, -1, -1, -1, -1, -1, -1, -1,
    -1, -1, -1, -1, -1, -1, -1, -1, -1, -1, -1, -1, -1, -1, -1, -1,
    -1, -1, -1, -1, -1, -1, -1, -1, -1, -1, -1, -1, -1, -1, -1, -1,
    15, -1, 10, 17, 21, 20, 26, 30,  7,  5, -1, -1, -1, -1, -1, -1,
    -1, 29, -1, 24, 13, 25,  9,  8, 23, -1, 18, 22, 31, 27, 19, -1,
     1,  0,  3, 16, 11, 28, 12, 14,  6,  4,  2, -1, -1, -1, -1, -1,
    -1, 29, -1, 24, 13, 25,  9,  8, 23, -1, 18, 22, 31, 27, 19, -1,
     1,  0,  3, 16, 11, 28, 12, 14,  6,  4,  2, -1, -1, -1, -1, -1,
];

/// The text of a sequence of symbols: the character of each, in order.
pub open spec fn encode_spec(symbols: Seq<u8>) -> Seq<char> {
    Seq::new(symbols.len(), |i: int| CHARSET[symbols[i] as int])
}

/// The symbol that a character stands for, if it is in the alphabet.
pub open spec fn char_symbol(c: char) -> Option<u8> {
    if (c as u32) < 128 && 0 <= CHARSET_REV[c as int] <= 31 {
        Some(CHARSET_REV[c as int] as u8)
    } else {
        None
    }
}

/// The case of a letter: `true` for a lowercase one, `false` for an
/// uppercase one. Other characters have none.
pub open spec fn is_lower_spec(c: char) -> Option<bool> {
    if 'a' <= c <= 'z' {
        Some(true)
    } else if 'A' <= c <= 'Z' {
        Some(false)
    } else {
        None
    }
}

/// The case that a text asks of its letters: that of its first letter.
pub open spec fn required_case(text: Seq<char>) -> Option<bool>
    decreases text.len(),
{
    if text.len() == 0 {
        None
    } else if is_lower_spec(text[0]) is Some {
        is_lower_spec(text[0])
    } else {
        required_case(text.drop_first())
    }
}

/// What is wrong with character `i` of `text`, if anything: a letter of the
/// other case than the first letter's, or else a character outside the
/// alphabet.
pub open spec fn char_fault(text: Seq<char>, i: int) -> Option<ErrorView> {
    let c = text[i];
    if is_lower_spec(c) is Some && is_lower_spec(c) != required_case(text) {
        Some(ErrorView::MixedCase)
    } else if char_symbol(c) is None {
        Some(ErrorView::InvalidChar(c))
    } else {
        None
    }
}

/// Whether character `i` of `text` is the first one with a fault.
pub open spec fn is_first_fault(text: Seq<char>, i: int) -> bool {
    &&& 0 <= i < text.len()
    &&& char_fault(text, i) is Some
    &&& forall|j: int| 0 <= j < i ==> (#[trigger] char_fault(text, j)) is None
}

/// The first character of `text` with a fault.
pub open spec fn first_fault(text: Seq<char>) -> int {
    choose|i: int| is_first_fault(text, i)
}

/// Whether no character of `text` has a fault.
pub open spec fn faultless(text: Seq<char>) -> bool {
    forall|i: int| 0 <= i < text.len() ==> (#[trigger] char_fault(text, i)) is None
}

/// The symbols of a text.
///
/// An empty text and one with a character outside ASCII are refused as
/// malformed. Otherwise each character gives its symbol, unless one has a
/// fault: then the first such character decides the error.
pub open spec fn decode_spec(text: Seq<char>) -> Result<Seq<u8>, ErrorView> {
    if text.len() == 0 || !is_ascii_chars(text) {
        Err(ErrorView::InvalidAddressFormat(text))
    } else if faultless(text) {
        Ok(Seq::new(text.len(), |i: int| char_symbol(text[i])->Some_0))
    } else {
        Err(char_fault(text, first_fault(text))->Some_0)
    }
}

/// The text of `data`: the character of each symbol, in order.
pub fn encode(data: &[U5]) -> (text: String)
    ensures
        text@ == encode_spec(values(data@)),
{
    let ghost expected = encode_spec(values(data@));
    let mut text = String::new();
    let mut i: usize = 0;
    while i < data.len()
        invariant
            i <= data.len(),
            expected == encode_spec(values(data@)),
            text@ == expected.take(i as int),
        decreases data.len() - i,
    {
        let v = data[i].to_u8();
        text.push(CHARSET[v as usize]);
        i += 1;
    }
    text
}

/// The case of a letter: `Some(true)` for a lowercase one, `Some(false)` for
/// an uppercase one, `None` for any other character.
pub fn is_lower(c: char) -> (r: Option<bool>)
    ensures
        r == is_lower_spec(c),
{
    if 'a' <= c && c <= 'z' {
        Some(true)
    } else if 'A' <= c && c <= 'Z' {
        Some(false)
    } else {
        None
    }
}

/// A text with a letter asks for a case.
pub proof fn lemma_required_case_some(text: Seq<char>, i: int)
    requires
        0 <= i < text.len(),
        is_lower_spec(text[i]) is Some,
    ensures
        required_case(text) is Some,
    decreases text.len(),
{
    if is_lower_spec(text[0]) is None {
        lemma_required_case_some(text.drop_first(), i - 1);
    }
}

/// The case that a text asks for is the case of one of its letters.
pub proof fn lemma_required_case_witness(text: Seq<char>) -> (i: int)
    requires
        required_case(text) is Some,
    ensures
        0 <= i < text.len(),
        is_lower_spec(text[i]) == required_case(text),
    decreases text.len(),
{
    if is_lower_spec(text[0]) is Some {
        0
    } else {
        let j = lemma_required_case_witness(text.drop_first());
        j + 1
    }
}

/// The symbols of `data`, one for each character.
///
/// Fails with `InvalidAddressFormat`, which holds `data`, where `data` is
/// empty or not ASCII; else with the error of the first character that is a
/// letter of the wrong case (`MixedCase`) or is not in the alphabet
/// (`InvalidChar`).
pub fn decode(data: &str) -> (r: Result<Vec<U5>, Error>)
    ensures
        match r {
            Ok(v) => decode_spec(data@) == Ok::<Seq<u8>, ErrorView>(values(v@)),
            Err(e) => decode_spec(data@) == Err::<Seq<u8>, ErrorView>(e@),
        },
{
    if data.is_empty() || !data.is_ascii() {
        return Err(Error::InvalidAddressFormat(data.to_owned()));
    }
    let ghost text = data@;
    let mut lower: Option<bool> = None;
    proof {
        assert(text.skip(0) == text);
    }
    for c in it: data.chars()
        invariant
            it.seq() == text,
            required_case(text) == if lower is Some {
                lower
            } else {
                required_case(text.skip(it.index() as int))
            },
    {
        proof {
            let rest = text.skip(it.index() as int);
            assert(rest.drop_first() == text.skip(it.index() + 1));
        }
        if lower.is_none() {
            lower = is_lower(c);
        }
    }
    let mut result: Vec<U5> = Vec::new();
    for c in it: data.chars()
        invariant
            it.seq() == text,
            text == data@,
            is_ascii_chars(text),
            text.len() > 0,
            lower == required_case(text),
            forall|j: int| 0 <= j < it.index() ==> (#[trigger] char_fault(text, j)) is None,
            values(result@) == Seq::new(it.index() as nat, |j: int| char_symbol(text[j])->Some_0),
    {
        let ghost i = it.index() as int;
        if let Some(case) = is_lower(c) {
            match lower {
                Some(required) => {
                    if case != required {
                        proof {
                            assert(is_first_fault(text, i));
                        }
                        return Err(Error::MixedCase);
                    }
                },
                None => {
                    proof {
                        lemma_required_case_some(text, i);
                    }
                    return Err(Error::InvalidChar(c));
                },
            }
        }
        let num: i8 = CHARSET_REV[c as usize];
        if num < 0 || num > 31 {
            proof {
                assert(is_first_fault(text, i));
            }
            return Err(Error::InvalidChar(c));
        }
        let symbol = U5::try_from_u8(num as u8)?;
        proof {
            assert(values(result@.push(symbol)) == values(result@).push(symbol@));
        }
        result.push(symbol);
    }
    Ok(result)
}

/// A text with a faulty character has a first one, which is that character
/// or stands before it.
pub proof fn lemma_first_fault(text: Seq<char>, i: int)
    requires
        0 <= i < text.len(),
        char_fault(text, i) is Some,
    ensures
        is_first_fault(text, first_fault(text)),
        first_fault(text) <= i,
    decreases i,
{
    if exists|j: int| 0 <= j < i && char_fault(text, j) is Some {
        let j = choose|j: int| 0 <= j < i && char_fault(text, j) is Some;
        lemma_first_fault(text, j);
    } else {
        assert(is_first_fault(text, i));
        let f = first_fault(text);
        if f > i {
            assert(char_fault(text, i) is None);
        }
    }
}

/// The upper-case form of a letter; any other character itself.
pub open spec fn to_upper(c: char) -> char {
    if 'a' <= c <= 'z' {
        ((c as u32 - 32) as u32) as char
    } else {
        c
    }
}

/// The text with each lowercase letter replaced by its upper-case form.
pub open spec fn upper_case(text: Seq<char>) -> Seq<char> {
    Seq::new(text.len(), |i: int| to_upper(text[i]))
}

/// Reading the text of a sequence of symbols gives the symbols back.
pub proof fn lemma_decode_encode(symbols: Seq<u8>)
    requires
        all_five_bit(symbols),
        symbols.len() > 0,
    ensures
        decode_spec(encode_spec(symbols)) == Ok::<Seq<u8>, ErrorView>(symbols),
{
    let text = encode_spec(symbols);
    assert forall|i: int| 0 <= i < text.len() implies {
        &&& '\0' <= #[trigger] text[i] <= '\u{7f}'
        &&& is_lower_spec(text[i]) != Some(false)
        &&& char_symbol(text[i]) == Some(symbols[i])
    } by {}
    if required_case(text) is Some {
        let w = lemma_required_case_witness(text);
    }
    assert forall|i: int| 0 <= i < text.len() implies (#[trigger] char_fault(text, i)) is None by {
        if is_lower_spec(text[i]) is Some {
            lemma_required_case_some(text, i);
        }
    }
    assert(Seq::new(text.len(), |i: int| char_symbol(text[i])->Some_0) == symbols);
}

/// Writing the symbols of a text without uppercase letters gives the text
/// back.
pub proof fn lemma_encode_decode(text: Seq<char>)
    requires
        decode_spec(text) is Ok,
        forall|i: int| 0 <= i < text.len() ==> is_lower_spec(#[trigger] text[i]) != Some(false),
    ensures
        encode_spec(decode_spec(text)->Ok_0) == text,
{
    let symbols = decode_spec(text)->Ok_0;
    assert forall|i: int| 0 <= i < text.len() implies CHARSET[symbols[i] as int] == text[i] by {
        assert(char_fault(text, i) is None);
    }
}

/// A text that reads as symbols reads as the same symbols in upper case.
pub proof fn lemma_upper_case(text: Seq<char>)
    requires
        decode_spec(text) is Ok,
    ensures
        decode_spec(upper_case(text)) == decode_spec(text),
{
    let upper = upper_case(text);
    assert forall|i: int| 0 <= i < upper.len() implies {
        &&& '\0' <= #[trigger] upper[i] <= '\u{7f}'
        &&& is_lower_spec(upper[i]) != Some(true)
        &&& char_symbol(upper[i]) == char_symbol(text[i])
        &&& char_symbol(text[i]) is Some
    } by {
        assert(char_fault(text, i) is None);
    }
    if required_case(upper) is Some {
        let w = lemma_required_case_witness(upper);
    }
    assert forall|i: int| 0 <= i < upper.len() implies (#[trigger] char_fault(upper, i)) is None by {
        if is_lower_spec(upper[i]) is Some {
            lemma_required_case_some(upper, i);
        }
    }
    assert(Seq::new(upper.len(), |i: int| char_symbol(upper[i])->Some_0) == Seq::new(
        text.len(),
        |i: int| char_symbol(text[i])->Some_0,
    ));
}

/// A text that reads as symbols is refused for mixed case once some of its
/// letters, not all, change their case.
pub proof fn lemma_mixed_case(text: Seq<char>, mixed: Seq<char>, lower: int, upper: int)
    requires
        decode_spec(text) is Ok,
        mixed.len() == text.len(),
        forall|i: int| 0 <= i < text.len() ==> to_upper(#[trigger] mixed[i]) == to_upper(text[i]),
        0 <= lower < mixed.len(),
        0 <= upper < mixed.len(),
        is_lower_spec(mixed[lower]) == Some(true),
        is_lower_spec(mixed[upper]) == Some(false),
    ensures
        decode_spec(mixed) == Err::<Seq<u8>, ErrorView>(ErrorView::MixedCase),
{
    assert forall|i: int| 0 <= i < mixed.len() implies {
        &&& '\0' <= #[trigger] mixed[i] <= '\u{7f}'
        &&& char_symbol(mixed[i]) is Some
    } by {
        assert(char_fault(text, i) is None);
    }
    if is_lower_spec(mixed[lower]) != required_case(mixed) {
        lemma_first_fault(mixed, lower);
    } else {
        lemma_first_fault(mixed, upper);
    }
    // The first fault is one of case: every character is in the alphabet.
    assert(char_symbol(mixed[first_fault(mixed)]) is Some);
}

} // verus!
