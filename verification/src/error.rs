//! Error types surfaced by indexing and lookups.

use vstd::prelude::*;
use vstd::utf8::{
    encode_scalar, encode_utf8, encode_utf8_decode_utf8, encode_utf8_valid_utf8, valid_utf8,
};

use crate::helper::bytes_to_string_lossy;

verus! {

/// Failures of structural indexing and of tape construction.
#[derive(Debug, Clone, Copy, PartialEq, Eq)]
#[non_exhaustive]
pub enum StructureError {
    /// Reading or mapping the data source failed.
    Io,
    /// A value that was expected is missing.
    MissingValue,
    /// A method was called before the state it needs was computed.
    InvalidState,
    /// Unsupported structure: likely a variable number of fields per record.
    InvalidCsvFormat,
}

/// Kinds of error met while parsing text.
#[derive(Debug)]
#[non_exhaustive]
pub enum ErrorType {
    /// The input is larger than the supported maximum.
    InputTooLarge,
    /// The data ended early.
    EarlyEnd,
    /// Internal error.
    InternalError,
    /// Invalid escape sequence.
    InvalidEscape,
    /// Invalid number.
    InvalidNumber,
    /// Invalid UTF-8 codepoint.
    InvalidUTF8,
    /// Invalid Unicode escape sequence.
    InvalidUnicodeEscape,
    /// Invalid Unicode codepoint.
    InvlaidUnicodeCodepoint,
    /// Non-structural character.
    NoStructure,
    /// Parser error.
    Parser,
    /// Early end of file.
    EOF,
    /// Unexpected end.
    UnexpectedEnd,
    /// Unterminated string.
    UnterminatedString,
    /// Overflow of a limited buffer.
    Overflow,
    /// Generic syntax error.
    Syntax,
    /// I/O error.
    IO,
}

/// The pairs of error kinds that compare equal.
pub open spec fn error_type_eq(a: ErrorType, b: ErrorType) -> bool {
    match (a, b) {
        (ErrorType::IO, ErrorType::IO) => true,
        (ErrorType::EarlyEnd, ErrorType::EarlyEnd) => true,
        (ErrorType::InternalError, ErrorType::InternalError) => true,
        (ErrorType::InvalidEscape, ErrorType::InvalidEscape) => true,
        (ErrorType::InvalidNumber, ErrorType::InvalidNumber) => true,
        (ErrorType::InvalidUTF8, ErrorType::InvalidUTF8) => true,
        (ErrorType::InvalidUnicodeEscape, ErrorType::InvalidUnicodeEscape) => true,
        (ErrorType::InvlaidUnicodeCodepoint, ErrorType::InvlaidUnicodeCodepoint) => true,
        (ErrorType::Parser, ErrorType::Parser) => true,
        (ErrorType::EOF, ErrorType::EOF) => true,
        (ErrorType::Syntax, ErrorType::Syntax) => true,
        (ErrorType::UnterminatedString, ErrorType::UnterminatedString) => true,
        (ErrorType::Overflow, ErrorType::Overflow) => true,
        _ => false,
    }
}

impl PartialEq for ErrorType {
    /// Same-kind comparison; kinds carrying context compare equal by kind.
    fn eq(&self, other: &Self) -> (r: bool) {
        match (self, other) {
            (ErrorType::IO, ErrorType::IO) => true,
            (ErrorType::EarlyEnd, ErrorType::EarlyEnd) => true,
            (ErrorType::InternalError, ErrorType::InternalError) => true,
            (ErrorType::InvalidEscape, ErrorType::InvalidEscape) => true,
            (ErrorType::InvalidNumber, ErrorType::InvalidNumber) => true,
            (ErrorType::InvalidUTF8, ErrorType::InvalidUTF8) => true,
            (ErrorType::InvalidUnicodeEscape, ErrorType::InvalidUnicodeEscape) => true,
            (ErrorType::InvlaidUnicodeCodepoint, ErrorType::InvlaidUnicodeCodepoint) => true,
            (ErrorType::Parser, ErrorType::Parser) => true,
            (ErrorType::EOF, ErrorType::EOF) => true,
            (ErrorType::Syntax, ErrorType::Syntax) => true,
            (ErrorType::UnterminatedString, ErrorType::UnterminatedString) => true,
            (ErrorType::Overflow, ErrorType::Overflow) => true,
            _ => false,
        }
    }
}

impl vstd::std_specs::cmp::PartialEqSpecImpl for ErrorType {
    open spec fn obeys_eq_spec() -> bool {
        true
    }

    open spec fn eq_spec(&self, other: &Self) -> bool {
        error_type_eq(*self, *other)
    }
}

/// The name under which an error kind is reported.
pub open spec fn error_type_name(t: ErrorType) -> Seq<char> {
    match t {
        ErrorType::InputTooLarge => "InputTooLarge"@,
        ErrorType::EarlyEnd => "EarlyEnd"@,
        ErrorType::InternalError => "InternalError"@,
        ErrorType::InvalidEscape => "InvalidEscape"@,
        ErrorType::InvalidNumber => "InvalidNumber"@,
        ErrorType::InvalidUTF8 => "InvalidUTF8"@,
        ErrorType::InvalidUnicodeEscape => "InvalidUnicodeEscape"@,
        ErrorType::InvlaidUnicodeCodepoint => "InvlaidUnicodeCodepoint"@,
        ErrorType::NoStructure => "NoStructure"@,
        ErrorType::Parser => "Parser"@,
        ErrorType::EOF => "EOF"@,
        ErrorType::UnexpectedEnd => "UnexpectedEnd"@,
        ErrorType::UnterminatedString => "UnterminatedString"@,
        ErrorType::Overflow => "Overflow"@,
        ErrorType::Syntax => "Syntax"@,
        ErrorType::IO => "IO"@,
    }
}

impl ErrorType {
    /// The name under which this kind is reported.
    pub fn name(&self) -> (r: &'static str)
        ensures
            r@ == error_type_name(*self),
    {
        match *self {
            ErrorType::InputTooLarge => "InputTooLarge",
            ErrorType::EarlyEnd => "EarlyEnd",
            ErrorType::InternalError => "InternalError",
            ErrorType::InvalidEscape => "InvalidEscape",
            ErrorType::InvalidNumber => "InvalidNumber",
            ErrorType::InvalidUTF8 => "InvalidUTF8",
            ErrorType::InvalidUnicodeEscape => "InvalidUnicodeEscape",
            ErrorType::InvlaidUnicodeCodepoint => "InvlaidUnicodeCodepoint",
            ErrorType::NoStructure => "NoStructure",
            ErrorType::Parser => "Parser",
            ErrorType::EOF => "EOF",
            ErrorType::UnexpectedEnd => "UnexpectedEnd",
            ErrorType::UnterminatedString => "UnterminatedString",
            ErrorType::Overflow => "Overflow",
            ErrorType::Syntax => "Syntax",
            ErrorType::IO => "IO",
        }
    }
}

/// The character rendering a single decimal digit.
pub open spec fn digit_char(d: int) -> char {
    ((0x30 + d) as u8) as char
}

/// The decimal rendering of a non-negative number, most significant digit
/// first.
pub open spec fn dec_chars(n: int) -> Seq<char>
    recommends
        n >= 0,
    decreases n,
{
    if n < 10 {
        seq![digit_char(n)]
    } else {
        dec_chars(n / 10).push(digit_char(n % 10))
    }
}

/// Concatenating characters concatenates their encodings.
proof fn lemma_encode_utf8_concat(a: Seq<char>, b: Seq<char>)
    ensures
        encode_utf8(a + b) == encode_utf8(a) + encode_utf8(b),
    decreases a.len(),
{
    if a.len() == 0 {
        assert(a + b =~= b);
        assert(encode_utf8(a) + encode_utf8(b) =~= encode_utf8(b));
    } else {
        lemma_encode_utf8_concat(a.drop_first(), b);
        assert((a + b).drop_first() =~= a.drop_first() + b);
        assert((a + b)[0] == a[0]);
        assert(encode_scalar(a[0] as u32) + (encode_utf8(a.drop_first()) + encode_utf8(b))
            =~= (encode_scalar(a[0] as u32) + encode_utf8(a.drop_first())) + encode_utf8(b));
    }
}

/// A one-character sequence encodes as the scalar encoding of the character.
proof fn lemma_encode_utf8_single(c: char)
    ensures
        encode_utf8(seq![c]) == encode_scalar(c as u32),
{
    assert(seq![c].len() == 1);
    assert(seq![c][0] == c);
    assert(seq![c].drop_first() =~= Seq::<char>::empty());
    assert(encode_utf8(Seq::<char>::empty()) == Seq::<u8>::empty());
    assert(encode_utf8(seq![c]) == encode_scalar(c as u32) + encode_utf8(Seq::<char>::empty()));
    assert(encode_scalar(c as u32) + Seq::<u8>::empty() =~= encode_scalar(c as u32));
}

/// Append the UTF-8 encoding of one character.
fn push_char_utf8(out: &mut Vec<u8>, c: char)
    ensures
        final(out)@ == old(out)@ + encode_utf8(seq![c]),
{
    broadcast use vstd::utf8::char_is_scalar;

    let u: u32 = c as u32;
    let ghost before = out@;
    if u < 0x80 {
        out.push((u & 0x7F) as u8);
    } else if u < 0x800 {
        out.push(0xC0 | ((u >> 6) & 0x1F) as u8);
        out.push(0x80 | (u & 0x3F) as u8);
    } else if u < 0x10000 {
        out.push(0xE0 | ((u >> 12) & 0x0F) as u8);
        out.push(0x80 | ((u >> 6) & 0x3F) as u8);
        out.push(0x80 | (u & 0x3F) as u8);
    } else {
        out.push(0xF0 | ((u >> 18) & 0x7) as u8);
        out.push(0x80 | ((u >> 12) & 0x3F) as u8);
        out.push(0x80 | ((u >> 6) & 0x3F) as u8);
        out.push(0x80 | (u & 0x3F) as u8);
    }
    proof {
        lemma_encode_utf8_single(c);
        assert(out@ =~= before + encode_scalar(u));
    }
}

/// Append the decimal rendering of a number, as ASCII bytes.
fn push_decimal(out: &mut Vec<u8>, n: usize)
    ensures
        final(out)@ == old(out)@ + encode_utf8(dec_chars(n as int)),
    decreases n,
{
    let ghost before = out@;
    if n < 10 {
        let d: u8 = 0x30 + (n as u8);
        out.push(d);
        proof {
            lemma_encode_utf8_single(digit_char(n as int));
            let v: u32 = (0x30 + n) as u32;
            assert(digit_char(n as int) as u32 == v);
            assert(v & 0x7F == v) by (bit_vector)
                requires
                    v < 0x80,
            ;
            assert(encode_scalar(digit_char(n as int) as u32) =~= seq![d]);
            assert(out@ =~= before + encode_utf8(dec_chars(n as int)));
        }
    } else {
        push_decimal(out, n / 10);
        let d: u8 = 0x30 + ((n % 10) as u8);
        out.push(d);
        proof {
            let ghost m = (n % 10) as int;
            lemma_encode_utf8_single(digit_char(m));
            let v: u32 = (0x30 + m) as u32;
            assert(digit_char(m) as u32 == v);
            assert(v & 0x7F == v) by (bit_vector)
                requires
                    v < 0x80,
            ;
            assert(encode_scalar(digit_char(m) as u32) =~= seq![d]);
            assert(dec_chars(n as int) =~= dec_chars(n as int / 10) + seq![digit_char(m)]);
            lemma_encode_utf8_concat(dec_chars(n as int / 10), seq![digit_char(m)]);
            assert(out@ =~= before + encode_utf8(dec_chars(n as int)));
        }
    }
}

/// An error met while parsing, with the position and character at which it
/// was encountered.
#[derive(Debug, PartialEq)]
pub struct Error {
    /// Byte index the error was encountered at.
    pub index: usize,
    /// The character at that position.
    pub character: char,
    /// The kind of error.
    pub error: ErrorType,
}

impl Error {
    /// The characters of the report produced by [`Error::message`].
    pub open spec fn message_chars(self) -> Seq<char> {
        error_type_name(self.error) + " at character "@ + dec_chars(self.index as int) + " ('"@
            + seq![self.character] + "')"@
    }

    /// Build an error from its parts.
    pub fn new(index: usize, character: char, error: ErrorType) -> (r: Self)
        ensures
            r.index == index,
            r.character == character,
            r.error == error,
    {
        Self { index, character, error }
    }

    /// Build a generic error of the given kind, at position zero.
    #[must_use]
    pub fn generic(t: ErrorType) -> (r: Self)
        ensures
            r.index == 0,
            r.character == '\u{1f4a9}',
            r.error == t,
    {
        Self { index: 0, character: '\u{1f4a9}', error: t }
    }

    /// Render the error report: the kind, the position and the character.
    pub fn message(&self) -> (r: String)
        ensures
            r@ == self.message_chars(),
    {
        let mut bytes: Vec<u8> = Vec::new();
        let name: &'static str = self.error.name();
        bytes.extend_from_slice(name.as_bytes());
        bytes.extend_from_slice(" at character ".as_bytes());
        push_decimal(&mut bytes, self.index);
        bytes.extend_from_slice(" ('".as_bytes());
        push_char_utf8(&mut bytes, self.character);
        bytes.extend_from_slice("')".as_bytes());
        proof {
            let n = error_type_name(self.error);
            lemma_encode_utf8_concat(n, " at character "@);
            lemma_encode_utf8_concat(n + " at character "@, dec_chars(self.index as int));
            lemma_encode_utf8_concat(
                n + " at character "@ + dec_chars(self.index as int),
                " ('"@,
            );
            lemma_encode_utf8_concat(
                n + " at character "@ + dec_chars(self.index as int) + " ('"@,
                seq![self.character],
            );
            lemma_encode_utf8_concat(
                n + " at character "@ + dec_chars(self.index as int) + " ('"@
                    + seq![self.character],
                "')"@,
            );
            assert(bytes@ =~= encode_utf8(self.message_chars()));
            encode_utf8_valid_utf8(self.message_chars());
            encode_utf8_decode_utf8(self.message_chars());
        }
        let r = bytes_to_string_lossy(&bytes);
        proof {
            assert(valid_utf8(bytes@));
        }
        r
    }
}

} // verus!
