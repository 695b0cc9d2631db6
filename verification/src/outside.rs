//! The calls into outside crates, each behind a trusted item whose contract
//! states what the crate's documentation and source show, and nothing more.
use vstd::prelude::*;
use vstd::arithmetic::power2::pow2;
use crate::numbers::{digit_char, all_digits, digits_value, eq_ignore_ascii_case};
use crate::xml_event::XmlEvent;
use base64::Engine;
use quick_xml::events::Event;

verus! {

// ---------------------------------------------------------------------------
// uuid
// ---------------------------------------------------------------------------

#[verifier::external_type_specification]
#[verifier::external_body]
pub struct ExUuid(uuid::Uuid);

/// The lowercase hexadecimal digit for `d` in `0..16`.
pub open spec fn hex_digit_lower(d: int) -> char {
    if d < 10 {
        digit_char(d)
    } else {
        ((87 + d) as u8) as char
    }
}

/// Hex digit number `k` of the 128 bits, counting from the most significant (`k` in `0..32`).
pub open spec fn nibble(bits: u128, k: int) -> int {
    (bits as int / pow2((4 * (31 - k)) as nat) as int) % 16
}

/// The hyphenated lowercase text of a UUID: its 32 hex digits, most significant
/// first, in groups of 8, 4, 4, 4 and 12 joined by `-`.
pub open spec fn uuid_hyphenated(bits: u128) -> Seq<char> {
    Seq::new(
        36,
        |i: int|
            if i == 8 || i == 13 || i == 18 || i == 23 {
                '-'
            } else if i < 8 {
                hex_digit_lower(nibble(bits, i))
            } else if i < 13 {
                hex_digit_lower(nibble(bits, i - 1))
            } else if i < 18 {
                hex_digit_lower(nibble(bits, i - 2))
            } else if i < 23 {
                hex_digit_lower(nibble(bits, i - 3))
            } else {
                hex_digit_lower(nibble(bits, i - 4))
            },
    )
}

/// The characters of a hyphenated UUID text other than its four hyphens, where the
/// text has 36 characters with hyphens at 8, 13, 18 and 23.
pub open spec fn hyphenated_digits(s: Seq<char>) -> Option<Seq<char>> {
    if s.len() == 36 && s[8] == '-' && s[13] == '-' && s[18] == '-' && s[23] == '-' {
        Some(s.take(8) + s.subrange(9, 13) + s.subrange(14, 18) + s.subrange(19, 23) + s.skip(24))
    } else {
        None
    }
}

/// The 32 characters that stand for hex digits in the four forms that
/// `uuid::Uuid::parse_str` reads: simple (32 digits), hyphenated, braced
/// (`{hyphenated}`) and URN (`urn:uuid:hyphenated`, the prefix in either case).
pub open spec fn uuid_digits(s: Seq<char>) -> Option<Seq<char>> {
    if s.len() == 32 {
        Some(s)
    } else if s.len() == 36 {
        hyphenated_digits(s)
    } else if s.len() == 38 && s[0] == '{' && s[37] == '}' {
        hyphenated_digits(s.subrange(1, 37))
    } else if s.len() == 45 && eq_ignore_ascii_case(s.take(9), "urn:uuid:"@) {
        hyphenated_digits(s.skip(9))
    } else {
        None
    }
}

/// What `uuid::Uuid::parse_str` gives for a text, as the 128 bits of the UUID
/// (`Uuid::as_u128`): the 32 hex digits of either case that one of its forms holds,
/// most significant first; `None` for any other text.
pub open spec fn uuid_parsed(text: Seq<char>) -> Option<u128> {
    match uuid_digits(text) {
        Some(d) => if all_digits(d, 16) {
            Some(digits_value(d, 16) as u128)
        } else {
            None
        },
        None => None,
    }
}

/// The UUID that `uuid::Uuid::from_u128` makes of 128 bits.
pub uninterp spec fn uuid_from_bits(bits: u128) -> uuid::Uuid;

/// Calls `uuid::Uuid::parse_str` and takes the bits of the result with `Uuid::as_u128`.
/// The contract states the forms that the crate's parser reads (`try_parse` in its
/// `parser.rs`: the byte length picks the form, and every digit must be an ASCII hex
/// digit, so a text with a non-ASCII character is refused in every form) and, beside
/// it, that the hyphenated lowercase text of any UUID reads back as that UUID.
#[verifier::external_body]
pub fn parse_uuid(text: &str) -> (r: Option<u128>)
    ensures
        r == uuid_parsed(text@),
        forall|bits: u128| text@ == uuid_hyphenated(bits) ==> r == Some(bits),
{
    match uuid::Uuid::parse_str(text) {
        Ok(u) => Some(u.as_u128()),
        Err(_) => None,
    }
}

/// Formats a UUID with `to_string`, whose `Display` writes the hyphenated lowercase
/// form of the UUID's 128 bits.
#[verifier::external_body]
pub fn uuid_to_string(u: &uuid::Uuid) -> (r: String)
    ensures
        forall|bits: u128| *u == uuid_from_bits(bits) ==> r@ == uuid_hyphenated(bits),
{
    u.to_string()
}

/// Calls `uuid::Uuid::from_u128`.
#[verifier::external_body]
pub fn uuid_of_bits(bits: u128) -> (r: uuid::Uuid)
    ensures
        r == uuid_from_bits(bits),
{
    uuid::Uuid::from_u128(bits)
}

// ---------------------------------------------------------------------------
// base64
// ---------------------------------------------------------------------------

/// The character of the standard base64 alphabet (RFC 4648) for `d` in `0..64`:
/// `A`-`Z`, `a`-`z`, `0`-`9`, `+`, `/`.
pub open spec fn base64_char(d: int) -> char {
    if d < 26 {
        ((65 + d) as u8) as char
    } else if d < 52 {
        ((71 + d) as u8) as char
    } else if d < 62 {
        ((d - 4) as u8) as char
    } else if d == 62 {
        '+'
    } else {
        '/'
    }
}

/// Standard base64 with padding (RFC 4648): each group of three bytes becomes four
/// characters of six bits each, most significant first; a last group of one or two
/// bytes becomes two or three characters and `=` padding up to four.
pub open spec fn base64_encoded(bytes: Seq<u8>) -> Seq<char>
    decreases bytes.len(),
{
    if bytes.len() == 0 {
        Seq::empty()
    } else if bytes.len() == 1 {
        let b0 = bytes[0] as int;
        seq![base64_char(b0 / 4), base64_char((b0 % 4) * 16), '=', '=']
    } else if bytes.len() == 2 {
        let b0 = bytes[0] as int;
        let b1 = bytes[1] as int;
        seq![base64_char(b0 / 4), base64_char((b0 % 4) * 16 + b1 / 16), base64_char((b1 % 16) * 4), '=']
    } else {
        let b0 = bytes[0] as int;
        let b1 = bytes[1] as int;
        let b2 = bytes[2] as int;
        seq![
            base64_char(b0 / 4),
            base64_char((b0 % 4) * 16 + b1 / 16),
            base64_char((b1 % 16) * 4 + b2 / 64),
            base64_char(b2 % 64),
        ] + base64_encoded(bytes.skip(3))
    }
}

/// What `base64::engine::general_purpose::STANDARD.decode` gives for the bytes of a
/// text: the decoded bytes, or `None` where the crate reports a `DecodeError`.
pub uninterp spec fn base64_decoded(text: Seq<char>) -> Option<Seq<u8>>;

/// Calls `STANDARD.encode` of the `base64` crate, which writes the standard alphabet
/// with padding.
#[verifier::external_body]
pub fn base64_encode(bytes: &[u8]) -> (r: String)
    ensures
        r@ == base64_encoded(bytes@),
{
    base64::engine::general_purpose::STANDARD.encode(bytes)
}

/// Calls `STANDARD.decode` of the `base64` crate. The contract names the result;
/// beside it, it states that the standard padded encoding of any bytes decodes back
/// to those bytes (the engine's `PAD` configuration requires canonical padding and
/// zero trailing bits, which `base64_encoded` has).
#[verifier::external_body]
pub fn base64_decode(text: &str) -> (r: Option<Vec<u8>>)
    ensures
        r matches Some(b) ==> base64_decoded(text@) == Some(b@),
        r is None ==> base64_decoded(text@) is None,
        forall|bytes: Seq<u8>| text@ == base64_encoded(bytes) ==> (r is Some && r->0@ == bytes),
{
    base64::engine::general_purpose::STANDARD.decode(text).ok()
}

// ---------------------------------------------------------------------------
// chrono
// ---------------------------------------------------------------------------

/// What `chrono::DateTime::parse_from_rfc3339` followed by `timestamp` gives for a
/// text: the seconds since the Unix epoch, or `None` where parsing fails.
pub uninterp spec fn rfc3339_seconds(text: Seq<char>) -> Option<i64>;

/// Calls `chrono::DateTime::parse_from_rfc3339` and converts a success with `timestamp`.
#[verifier::external_body]
pub fn parse_rfc3339(text: &str) -> (r: Option<i64>)
    ensures
        r == rfc3339_seconds(text@),
{
    match chrono::DateTime::parse_from_rfc3339(text) {
        Ok(dt) => Some(dt.timestamp()),
        Err(_) => None,
    }
}

// ---------------------------------------------------------------------------
// quick-xml
// ---------------------------------------------------------------------------

/// A `quick_xml::Reader` over its own copy of a text. The reader type carries a
/// `BufRead` bound that an external type declaration cannot state, so the reader
/// is held in a private field of this struct, whose fields proofs do not see; what
/// it has still to yield is named by `pending_events`.
#[verifier::external_body]
pub struct XmlReader {
    reader: quick_xml::Reader<std::io::Cursor<Vec<u8>>>,
}

/// The events that a `quick_xml::Reader` over the text yields, with `trim_text(true)`
/// and `expand_empty_elements(true)`, up to and including the first end of input or
/// error, each converted as `next_xml_event` converts it.
pub uninterp spec fn xml_tokens(text: Seq<char>) -> Seq<XmlEvent>;

/// The events that the reader has still to yield.
pub uninterp spec fn pending_events(r: XmlReader) -> Seq<XmlEvent>;

/// Whether an event ends a reader's stream: the end of input or an error.
pub open spec fn is_final_event(e: XmlEvent) -> bool {
    e is Eof || e is Error
}

/// A stream that ends with its first final event.
pub open spec fn ends_once(s: Seq<XmlEvent>) -> bool {
    &&& s.len() > 0
    &&& is_final_event(s.last())
    &&& forall|i: int| 0 <= i < s.len() - 1 ==> !is_final_event(#[trigger] s[i])
}

/// Calls `quick_xml::Reader::from_reader` on a copy of the text's bytes and sets
/// `trim_text(true)` and `expand_empty_elements(true)` on the reader. The events it will yield are named;
/// the contract states that they end at the first end of input or error, as a reader
/// of a finite text does.
#[verifier::external_body]
pub fn open_xml_reader(text: &str) -> (r: XmlReader)
    ensures
        pending_events(r) == xml_tokens(text@),
        ends_once(pending_events(r)),
{
    let mut reader = quick_xml::Reader::from_reader(std::io::Cursor::new(text.as_bytes().to_vec()));
    reader.trim_text(true);
    reader.expand_empty_elements(true);
    XmlReader { reader }
}

/// Calls `quick_xml::Reader::read_event` and converts the event: tag names of start
/// and end tags to text, a text event to its unescaped and decoded text (`None` where
/// `unescape_and_decode` fails), comments, the end of input and errors to their own
/// events, and the other kinds (declarations, processing instructions, CDATA,
/// doctypes) to `Other`.
#[verifier::external_body]
pub fn next_xml_event(r: &mut XmlReader) -> (e: XmlEvent)
    requires
        pending_events(*old(r)).len() > 0,
    ensures
        e == pending_events(*old(r))[0],
        pending_events(*final(r)) == pending_events(*old(r)).drop_first(),
{
    let mut buf = Vec::new();
    let reader = &mut r.reader;
    match reader.read_event(&mut buf) {
        Ok(Event::Start(s)) => XmlEvent::Start(String::from_utf8_lossy(s.name()).into_owned()),
        Ok(Event::End(s)) => XmlEvent::End(String::from_utf8_lossy(s.name()).into_owned()),
        Ok(Event::Text(t)) => XmlEvent::Text(t.unescape_and_decode(reader).ok()),
        Ok(Event::Comment(_)) => XmlEvent::Comment,
        Ok(Event::Eof) => XmlEvent::Eof,
        Ok(Event::Empty(_) | Event::CData(_) | Event::Decl(_) | Event::PI(_) | Event::DocType(_)) => {
            XmlEvent::Other
        },
        Err(_) => XmlEvent::Error,
    }
}

} // verus!
