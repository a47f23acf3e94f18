//! Handing text to the clipboard of a terminal emulator.
//!
//! Over SSH there is no local clipboard to talk to, so writes are emitted as an
//! OSC 52 escape sequence for the terminal emulator to pick up.

use vstd::prelude::*;
use vstd::string::StringExecFns;
use vstd::utf8::encode_utf8;

use crate::bytes::size_of_text;
use crate::text::{chars_of, decimal, push_decimal};

verus! {

/// Terminals cap how long an OSC 52 sequence they will accept and discard
/// anything longer without saying so. The usual ceiling is around 74KB of
/// encoded payload, and multiplexers set it lower, so this stays well under.
pub const OSC52_LIMIT: usize = 32 * 1024;

// Base64

/// The letter for a six-bit value.
pub open spec fn letter(value: int) -> char {
    if value < 26 {
        (value + 0x41) as char
    } else if value < 52 {
        (value - 26 + 0x61) as char
    } else if value < 62 {
        (value - 52 + 0x30) as char
    } else if value == 62 {
        '+'
    } else {
        '/'
    }
}

/// The first letter of a group: the upper six bits of the first byte.
pub open spec fn first_letter(a: u8) -> char {
    letter(a as int / 4)
}

/// The second letter of a group: two bits of the first byte and four of the
/// second.
pub open spec fn second_letter(a: u8, b: u8) -> char {
    letter(a as int % 4 * 16 + b as int / 16)
}

/// The third letter of a group: four bits of the second byte and two of the
/// third.
pub open spec fn third_letter(b: u8, c: u8) -> char {
    letter(b as int % 16 * 4 + c as int / 64)
}

/// The fourth letter of a group: the lower six bits of the third byte.
pub open spec fn fourth_letter(c: u8) -> char {
    letter(c as int % 64)
}

/// The Base64 form of a byte string, with padding.
pub open spec fn base64_of(bytes: Seq<u8>) -> Seq<char>
    decreases bytes.len(),
{
    if bytes.len() == 0 {
        Seq::empty()
    } else if bytes.len() == 1 {
        seq![first_letter(bytes[0]), second_letter(bytes[0], 0), '=', '=']
    } else if bytes.len() == 2 {
        seq![
            first_letter(bytes[0]),
            second_letter(bytes[0], bytes[1]),
            third_letter(bytes[1], 0),
            '=',
        ]
    } else {
        seq![
            first_letter(bytes[0]),
            second_letter(bytes[0], bytes[1]),
            third_letter(bytes[1], bytes[2]),
            fourth_letter(bytes[2]),
        ] + base64_of(bytes.skip(3))
    }
}

/// The letter for a six-bit value.
fn letter_for(value: u8) -> (ch: char)
    requires
        value < 64,
    ensures
        ch == letter(value as int),
{
    if value < 26 {
        (value + 0x41) as char
    } else if value < 52 {
        (value - 26 + 0x61) as char
    } else if value < 62 {
        (value - 52 + 0x30) as char
    } else if value == 62 {
        '+'
    } else {
        '/'
    }
}

/// The Base64 form of a byte string, with padding.
pub fn base64(bytes: &[u8]) -> (text: String)
    ensures
        text@ == base64_of(bytes@),
{
    let mut out = String::new();
    let mut at: usize = 0;
    assert(bytes@.skip(0) == bytes@);
    assert(out@ + base64_of(bytes@) == base64_of(bytes@));
    while bytes.len() - at >= 3
        invariant
            at <= bytes@.len(),
            base64_of(bytes@) == out@ + base64_of(bytes@.skip(at as int)),
        decreases bytes@.len() - at,
    {
        let a = bytes[at];
        let b = bytes[at + 1];
        let c = bytes[at + 2];
        let ghost before = out@;
        let ghost rest = bytes@.skip(at as int);
        out.push(letter_for(a / 4));
        out.push(letter_for(a % 4 * 16 + b / 16));
        out.push(letter_for(b % 16 * 4 + c / 64));
        out.push(letter_for(c % 64));
        proof {
            assert(rest.skip(3) == bytes@.skip(at + 3));
            let group = seq![
                first_letter(a),
                second_letter(a, b),
                third_letter(b, c),
                fourth_letter(c),
            ];
            assert(out@ == before + group);
            assert(before + (group + base64_of(rest.skip(3))) == out@ + base64_of(rest.skip(3)));
        }
        at = at + 3;
    }
    let ghost before = out@;
    let ghost rest = bytes@.skip(at as int);
    if bytes.len() - at == 1 {
        let a = bytes[at];
        out.push(letter_for(a / 4));
        out.push(letter_for(a % 4 * 16));
        out.push('=');
        out.push('=');
    } else if bytes.len() - at == 2 {
        let a = bytes[at];
        let b = bytes[at + 1];
        out.push(letter_for(a / 4));
        out.push(letter_for(a % 4 * 16 + b / 16));
        out.push(letter_for(b % 16 * 4));
        out.push('=');
    }
    assert(out@ == before + base64_of(rest));
    out
}

// The escape sequence

/// A text that is too long for the clipboard of a terminal.
#[derive(Debug)]
pub struct TooLong {
    /// Number of characters of the text.
    pub characters: usize,
}

impl TooLong {
    /// The error in words.
    pub fn message(&self) -> (text: String)
        ensures
            text@ == decimal(self.characters as nat)
                + " characters is too long to send to the terminal's clipboard; use --stdout and pipe it instead"@,
    {
        let mut text = String::new();
        push_decimal(&mut text, self.characters as u64);
        text.append(
            " characters is too long to send to the terminal's clipboard; use --stdout and pipe it instead",
        );
        text
    }
}

/// The escape sequence that hands a text to the terminal emulator over OSC 52.
///
/// A longer one than terminals accept would be silently dropped while this side
/// reported success, leaving the clipboard holding something else, so it is
/// refused.
pub fn osc52_sequence(text: &str) -> (sequence: Result<String, TooLong>)
    ensures
        match sequence {
            Ok(sequence) => {
                let encoded = base64_of(encode_utf8(text@));
                encoded.len() <= OSC52_LIMIT && sequence@ == "\x1b]52;c;"@ + encoded + "\x07"@
            },
            Err(error) => base64_of(encode_utf8(text@)).len() > OSC52_LIMIT && error.characters
                == text@.len(),
        },
        sequence is Ok <==> encode_utf8(text@).len() <= 24576,
        sequence matches Ok(sequence) ==> sequence@.len() >= 8 && base64_read(
            sequence@.subrange(7, sequence@.len() - 1),
        ) == encode_utf8(text@),
{
    let size: usize = size_of_text(text);
    let groups: usize = size / 3 + (if size % 3 == 0 {
        0
    } else {
        1
    });
    proof {
        law_base64_length(encode_utf8(text@));
        law_base64_reads_back(encode_utf8(text@));
        reveal_strlit("\x1b]52;c;");
        reveal_strlit("\x07");
    }
    if groups > OSC52_LIMIT / 4 {
        return Err(TooLong { characters: chars_of(text).len() });
    }
    let mut sequence = String::new();
    sequence.append("\x1b]52;c;");
    sequence.append(base64(text.as_bytes()).as_str());
    sequence.append("\x07");
    assert(sequence@.subrange(7, sequence@.len() - 1) == base64_of(encode_utf8(text@)));
    Ok(sequence)
}

// Laws

/// Base64 takes four letters for every three bytes, the last group padded.
pub proof fn law_base64_length(bytes: Seq<u8>)
    ensures
        base64_of(bytes).len() == (bytes.len() + 2) / 3 * 4,
    decreases bytes.len(),
{
    if bytes.len() >= 3 {
        law_base64_length(bytes.skip(3));
    }
}

/// The six-bit value of a letter.
pub open spec fn letter_value(ch: char) -> int {
    if 'A' <= ch <= 'Z' {
        ch as int - 0x41
    } else if 'a' <= ch <= 'z' {
        ch as int - 0x61 + 26
    } else if '0' <= ch <= '9' {
        ch as int - 0x30 + 52
    } else if ch == '+' {
        62
    } else {
        63
    }
}

/// The bytes that a Base64 text stands for, read group by group.
pub open spec fn base64_read(text: Seq<char>) -> Seq<u8>
    decreases text.len(),
{
    if text.len() < 4 {
        Seq::empty()
    } else {
        let a = letter_value(text[0]);
        let b = letter_value(text[1]);
        let c = letter_value(text[2]);
        let d = letter_value(text[3]);
        let first = (a * 4 + b / 16) as u8;
        let second = (b % 16 * 16 + c / 4) as u8;
        let third = (c % 4 * 64 + d) as u8;
        if text[2] == '=' {
            seq![first]
        } else if text[3] == '=' {
            seq![first, second]
        } else {
            seq![first, second, third] + base64_read(text.skip(4))
        }
    }
}

/// Reading what was encoded gives the bytes back.
pub proof fn law_base64_reads_back(bytes: Seq<u8>)
    ensures
        base64_read(base64_of(bytes)) == bytes,
    decreases bytes.len(),
{
    assert forall|value: int| 0 <= value < 64 implies #[trigger] letter_value(letter(value))
        == value && letter(value) != '=' by {}
    let text = base64_of(bytes);
    if bytes.len() == 1 {
        assert(base64_read(text) == seq![bytes[0]]);
        assert(bytes == seq![bytes[0]]);
    } else if bytes.len() == 2 {
        assert(base64_read(text) == seq![bytes[0], bytes[1]]);
        assert(bytes == seq![bytes[0], bytes[1]]);
    } else if bytes.len() >= 3 {
        law_base64_reads_back(bytes.skip(3));
        assert(text.skip(4) == base64_of(bytes.skip(3)));
        assert(bytes == seq![bytes[0], bytes[1], bytes[2]] + bytes.skip(3));
        assert(base64_read(text) == seq![bytes[0], bytes[1], bytes[2]] + base64_read(
            text.skip(4),
        ));
    }
}

/// Base64 is written with the letters, digits, plus and slash, and with padding at its end
/// alone.
pub proof fn law_base64_has_its_alphabet(bytes: Seq<u8>, i: int)
    requires
        0 <= i < base64_of(bytes).len(),
    ensures
        ({
            let ch = base64_of(bytes)[i];
            ||| 'A' <= ch <= 'Z' || 'a' <= ch <= 'z' || '0' <= ch <= '9'
            ||| ch == '+' || ch == '/'
            ||| ch == '=' && i >= base64_of(bytes).len() - 2
        }),
    decreases bytes.len(),
{
    if bytes.len() >= 3 {
        let rest = base64_of(bytes.skip(3));
        if i >= 4 {
            assert(base64_of(bytes)[i] == rest[i - 4]);
            law_base64_has_its_alphabet(bytes.skip(3), i - 4);
        }
    }
}

/// Bytes are encoded three by three: what stands before a multiple of three does not change
/// with what follows.
pub proof fn law_base64_adds_up(front: Seq<u8>, back: Seq<u8>)
    requires
        front.len() % 3 == 0,
    ensures
        base64_of(front + back) == base64_of(front) + base64_of(back),
    decreases front.len(),
{
    if front.len() == 0 {
        assert(front + back == back);
        assert(base64_of(front) + base64_of(back) == base64_of(back));
    } else {
        let rest = front.skip(3);
        law_base64_adds_up(rest, back);
        assert((front + back).skip(3) == rest + back);
        assert(base64_of(front + back) == base64_of(front) + base64_of(back));
    }
}

} // verus!
