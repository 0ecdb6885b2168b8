//! Open sRGB RGB8 and RGBA8 conventions with an editable hexadecimal spelling.
use crate::value::{
    field, fields_data, get, insert, insert_field, lemma_insert_field, lemma_remove_field,
    remove, remove_field, sorted, CellId, Data, Value,
};
use vstd::prelude::*;
use vstd::string::*;
use vstd::utf8::{encode_utf8, is_ascii_chars, is_ascii_chars_encode_utf8};

verus! {

pub const ID: CellId = 0x25d0e2034b4bd65bebb4811d65eab89c;

pub const RGB: CellId = 0x6c8a17cbe463186cc8b07e536ccffa6b;

pub const RGBA: CellId = 0xf77aef58bcc71dd838f089adc650e2d4;

pub const UPDATE: CellId = 0xd3fd7b475567d1881c9023c90bd9864c;

pub const PICKER: CellId = 0xd30d721bc1db563c75f899cc15c10580;

pub const HUE: CellId = 0x4d226747147aa5cc9e6629e34c43a366;

/// A stored color: opaque RGB or RGB with alpha.
#[derive(Clone, Copy, Debug, PartialEq, Eq, Structural)]
pub enum Encoded {
    Rgb { red: u8, green: u8, blue: u8 },
    Rgba { red: u8, green: u8, blue: u8, alpha: u8 },
}

/// A color as four 8-bit channels.
#[derive(Clone, Copy, Debug, PartialEq, Eq, Structural)]
pub struct Rgba8 {
    pub red: u8,
    pub green: u8,
    pub blue: u8,
    pub alpha: u8,
}

/// The field that stores a color.
pub open spec fn spec_key(color: Encoded) -> CellId {
    match color {
        Encoded::Rgb { .. } => RGB,
        Encoded::Rgba { .. } => RGBA,
    }
}

/// The bytes that store a color.
pub open spec fn spec_bytes(color: Encoded) -> Seq<u8> {
    match color {
        Encoded::Rgb { red, green, blue } => seq![red, green, blue],
        Encoded::Rgba { red, green, blue, alpha } => seq![red, green, blue, alpha],
    }
}

/// The color a record stores: four RGBA bytes take precedence over three RGB bytes.
pub open spec fn spec_encoded(value: Data) -> Option<Encoded> {
    let rgba = match value.get(RGBA) {
        Some(Data::Blob(b)) => if b.len() == 4 {
            Some(Encoded::Rgba { red: b[0], green: b[1], blue: b[2], alpha: b[3] })
        } else {
            None
        },
        _ => None,
    };
    if rgba is Some {
        rgba
    } else {
        match value.get(RGB) {
            Some(Data::Blob(b)) => if b.len() == 3 {
                Some(Encoded::Rgb { red: b[0], green: b[1], blue: b[2] })
            } else {
                None
            },
            _ => None,
        }
    }
}

/// A color's four channels; RGB is opaque.
pub open spec fn spec_channels(color: Encoded) -> Rgba8 {
    match color {
        Encoded::Rgb { red, green, blue } => Rgba8 { red, green, blue, alpha: 0xff },
        Encoded::Rgba { red, green, blue, alpha } => Rgba8 { red, green, blue, alpha },
    }
}

/// The value of an ASCII hexadecimal digit.
pub open spec fn spec_hex_digit(byte: u8) -> Option<u8> {
    if 0x30 <= byte <= 0x39 {
        Some((byte - 0x30) as u8)
    } else if 0x61 <= byte <= 0x66 {
        Some((byte - 0x61 + 10) as u8)
    } else if 0x41 <= byte <= 0x46 {
        Some((byte - 0x41 + 10) as u8)
    } else {
        None
    }
}

/// Two bytes read as one base-16 number that fits a byte: two digits, or a
/// plus sign and one digit.
pub open spec fn spec_radix_byte(high: u8, low: u8) -> Option<u8> {
    if high == 0x2b {
        spec_hex_digit(low)
    } else {
        match (spec_hex_digit(high), spec_hex_digit(low)) {
            (Some(h), Some(l)) => Some((h * 16 + l) as u8),
            _ => None,
        }
    }
}

/// One digit repeated into a byte.
pub open spec fn spec_radix_nibble(byte: u8) -> Option<u8> {
    match spec_hex_digit(byte) {
        Some(n) => Some((n * 0x11) as u8),
        None => None,
    }
}

/// The color that a trimmed spelling's bytes denote: three or four single
/// digits, or three or four digit pairs.
pub open spec fn spec_parse_bytes(b: Seq<u8>) -> Option<Encoded> {
    if b.len() == 3 {
        match (spec_radix_nibble(b[0]), spec_radix_nibble(b[1]), spec_radix_nibble(b[2])) {
            (Some(red), Some(green), Some(blue)) => Some(Encoded::Rgb { red, green, blue }),
            _ => None,
        }
    } else if b.len() == 4 {
        match (
            spec_radix_nibble(b[0]),
            spec_radix_nibble(b[1]),
            spec_radix_nibble(b[2]),
            spec_radix_nibble(b[3]),
        ) {
            (Some(red), Some(green), Some(blue), Some(alpha)) => Some(
                Encoded::Rgba { red, green, blue, alpha },
            ),
            _ => None,
        }
    } else if b.len() == 6 {
        match (
            spec_radix_byte(b[0], b[1]),
            spec_radix_byte(b[2], b[3]),
            spec_radix_byte(b[4], b[5]),
        ) {
            (Some(red), Some(green), Some(blue)) => Some(Encoded::Rgb { red, green, blue }),
            _ => None,
        }
    } else if b.len() == 8 {
        match (
            spec_radix_byte(b[0], b[1]),
            spec_radix_byte(b[2], b[3]),
            spec_radix_byte(b[4], b[5]),
            spec_radix_byte(b[6], b[7]),
        ) {
            (Some(red), Some(green), Some(blue), Some(alpha)) => Some(
                Encoded::Rgba { red, green, blue, alpha },
            ),
            _ => None,
        }
    } else {
        None
    }
}

/// A character with the Unicode property `White_Space`.
pub open spec fn is_white_space(c: char) -> bool {
    let n = c as u32;
    ||| 0x9 <= n <= 0xd
    ||| n == 0x20
    ||| n == 0x85
    ||| n == 0xa0
    ||| n == 0x1680
    ||| 0x2000 <= n <= 0x200a
    ||| n == 0x2028
    ||| n == 0x2029
    ||| n == 0x202f
    ||| n == 0x205f
    ||| n == 0x3000
}

/// A text without its leading whitespace.
pub open spec fn trim_start(text: Seq<char>) -> Seq<char>
    decreases text.len(),
{
    if text.len() > 0 && is_white_space(text[0]) {
        trim_start(text.drop_first())
    } else {
        text
    }
}

/// A text without its trailing whitespace.
pub open spec fn trim_end(text: Seq<char>) -> Seq<char>
    decreases text.len(),
{
    if text.len() > 0 && is_white_space(text.last()) {
        trim_end(text.drop_last())
    } else {
        text
    }
}

/// A text without its leading and trailing whitespace.
pub open spec fn trimmed(text: Seq<char>) -> Seq<char> {
    trim_end(trim_start(text))
}

/// An ASCII letter or digit.
pub open spec fn is_ascii_alphanumeric(c: char) -> bool {
    ('0' <= c <= '9') || ('a' <= c <= 'z') || ('A' <= c <= 'Z')
}

/// Whether a character has the Unicode property `White_Space`.
fn white_space(c: char) -> (r: bool)
    ensures
        r == is_white_space(c),
{
    let n = c as u32;
    (0x9 <= n && n <= 0xd) || n == 0x20 || n == 0x85 || n == 0xa0 || n == 0x1680 || (0x2000 <= n
        && n <= 0x200a) || n == 0x2028 || n == 0x2029 || n == 0x202f || n == 0x205f || n == 0x3000
}

/// A text without its leading and trailing whitespace, the characters with
/// the Unicode property `White_Space`, as `str::trim` gives it.
pub(crate) fn trim(text: &str) -> (r: &str)
    ensures
        r@ == trimmed(text@),
{
    let ghost chars = text@;
    let n = text.unicode_len();
    let mut start: usize = 0;
    proof {
        assert(chars.skip(0) =~= chars);
    }
    while start < n && white_space(text.get_char(start))
        invariant
            n == chars.len(),
            chars == text@,
            start <= n,
            trim_start(chars) == trim_start(chars.skip(start as int)),
        decreases n - start,
    {
        proof {
            assert(chars.skip(start as int)[0] == chars[start as int]);
            assert(chars.skip(start as int).drop_first() =~= chars.skip(start + 1));
        }
        start = start + 1;
    }
    proof {
        assert(trim_start(chars) == chars.skip(start as int));
        assert(chars.skip(start as int) =~= chars.subrange(start as int, n as int));
    }
    let mut end: usize = n;
    while end > start && white_space(text.get_char(end - 1))
        invariant
            n == chars.len(),
            chars == text@,
            start <= end <= n,
            trim_end(chars.subrange(start as int, n as int)) == trim_end(
                chars.subrange(start as int, end as int),
            ),
        decreases end,
    {
        proof {
            let part = chars.subrange(start as int, end as int);
            assert(part.last() == chars[end - 1]);
            assert(part.drop_last() =~= chars.subrange(start as int, end - 1));
        }
        end = end - 1;
    }
    proof {
        let part = chars.subrange(start as int, end as int);
        assert(part.len() > 0 ==> part.last() == chars[end - 1]);
        assert(trim_end(part) == part);
    }
    text.substring_char(start, end)
}

/// A text of ASCII letters and digits has no whitespace to trim.
proof fn lemma_trimmed_alphanumeric(text: Seq<char>)
    requires
        forall|i: int| 0 <= i < text.len() ==> is_ascii_alphanumeric(#[trigger] text[i]),
    ensures
        trimmed(text) == text,
{
    if text.len() > 0 {
        assert(is_ascii_alphanumeric(text[0]));
        assert(is_ascii_alphanumeric(text[text.len() - 1]));
    }
}

/// The color a spelling denotes, after trimming.
pub open spec fn spec_parse(spelling: Seq<char>) -> Option<Encoded> {
    spec_parse_bytes(encode_utf8(trimmed(spelling)))
}

fn hex_digit(byte: u8) -> (r: Option<u8>)
    ensures
        r == spec_hex_digit(byte),
{
    if 0x30 <= byte && byte <= 0x39 {
        Some(byte - 0x30)
    } else if 0x61 <= byte && byte <= 0x66 {
        Some(byte - 0x61 + 10)
    } else if 0x41 <= byte && byte <= 0x46 {
        Some(byte - 0x41 + 10)
    } else {
        None
    }
}

fn radix_byte(high: u8, low: u8) -> (r: Option<u8>)
    ensures
        r == spec_radix_byte(high, low),
{
    if high == 0x2b {
        hex_digit(low)
    } else {
        match (hex_digit(high), hex_digit(low)) {
            (Some(h), Some(l)) => Some(h * 16 + l),
            _ => None,
        }
    }
}

fn radix_nibble(byte: u8) -> (r: Option<u8>)
    ensures
        r == spec_radix_nibble(byte),
{
    match hex_digit(byte) {
        Some(n) => Some(n * 0x11),
        None => None,
    }
}

fn parse_bytes(b: &[u8]) -> (r: Option<Encoded>)
    ensures
        r == spec_parse_bytes(b@),
{
    let n = b.len();
    if n == 3 {
        match (radix_nibble(b[0]), radix_nibble(b[1]), radix_nibble(b[2])) {
            (Some(red), Some(green), Some(blue)) => Some(Encoded::Rgb { red, green, blue }),
            _ => None,
        }
    } else if n == 4 {
        match (radix_nibble(b[0]), radix_nibble(b[1]), radix_nibble(b[2]), radix_nibble(b[3])) {
            (Some(red), Some(green), Some(blue), Some(alpha)) => Some(
                Encoded::Rgba { red, green, blue, alpha },
            ),
            _ => None,
        }
    } else if n == 6 {
        match (radix_byte(b[0], b[1]), radix_byte(b[2], b[3]), radix_byte(b[4], b[5])) {
            (Some(red), Some(green), Some(blue)) => Some(Encoded::Rgb { red, green, blue }),
            _ => None,
        }
    } else if n == 8 {
        match (
            radix_byte(b[0], b[1]),
            radix_byte(b[2], b[3]),
            radix_byte(b[4], b[5]),
            radix_byte(b[6], b[7]),
        ) {
            (Some(red), Some(green), Some(blue), Some(alpha)) => Some(
                Encoded::Rgba { red, green, blue, alpha },
            ),
            _ => None,
        }
    } else {
        None
    }
}

/// The color a hexadecimal spelling denotes, ignoring surrounding whitespace.
pub fn parse(spelling: &str) -> (r: Option<Encoded>)
    ensures
        r == spec_parse(spelling@),
        (forall|i: int| 0 <= i < spelling@.len() ==> is_ascii_alphanumeric(#[trigger] spelling@[i]))
            ==> r == spec_parse_bytes(encode_utf8(spelling@)),
{
    let text = trim(spelling);
    proof {
        if forall|i: int| 0 <= i < spelling@.len() ==> is_ascii_alphanumeric(#[trigger] spelling@[i]) {
            lemma_trimmed_alphanumeric(spelling@);
        }
    }
    let bytes = text.as_bytes();
    parse_bytes(bytes)
}

/// A byte with an ASCII capital letter made small.
pub open spec fn ascii_lowercase(byte: u8) -> u8 {
    if 0x41 <= byte <= 0x5a {
        (byte + 0x20) as u8
    } else {
        byte
    }
}

proof fn lemma_digit_ignores_case(byte: u8)
    ensures
        spec_hex_digit(ascii_lowercase(byte)) == spec_hex_digit(byte),
        spec_radix_nibble(ascii_lowercase(byte)) == spec_radix_nibble(byte),
        (ascii_lowercase(byte) == 0x2b) == (byte == 0x2b),
{
}

/// Hexadecimal spellings ignore case: a spelling's bytes denote the same
/// color as the same bytes with every capital letter made small.
pub proof fn lemma_parse_ignores_case(bytes: Seq<u8>)
    ensures
        spec_parse_bytes(bytes) == spec_parse_bytes(bytes.map_values(|b: u8| ascii_lowercase(b))),
{
    let lower = bytes.map_values(|b: u8| ascii_lowercase(b));
    assert forall|i: int| 0 <= i < bytes.len() implies {
        &&& spec_hex_digit(#[trigger] lower[i]) == spec_hex_digit(bytes[i])
        &&& spec_radix_nibble(lower[i]) == spec_radix_nibble(bytes[i])
        &&& (lower[i] == 0x2b) == (bytes[i] == 0x2b)
    } by {
        lemma_digit_ignores_case(bytes[i]);
    }
    if bytes.len() == 6 || bytes.len() == 8 {
        assert(spec_radix_byte(lower[0], lower[1]) == spec_radix_byte(bytes[0], bytes[1]));
        assert(spec_radix_byte(lower[2], lower[3]) == spec_radix_byte(bytes[2], bytes[3]));
        assert(spec_radix_byte(lower[4], lower[5]) == spec_radix_byte(bytes[4], bytes[5]));
        if bytes.len() == 8 {
            assert(spec_radix_byte(lower[6], lower[7]) == spec_radix_byte(bytes[6], bytes[7]));
        }
    }
}

/// A pair of hexadecimal digits, of either case, denotes sixteen times the
/// first digit's value plus the second's, a digit's value being its place
/// in `0123456789abcdef`.
pub proof fn lemma_digit_pair(high: u8, low: u8, h: u8, l: u8)
    requires
        h < 16,
        l < 16,
        high == spec_hex_char(h) as u8 || high == ascii_uppercase(spec_hex_char(h) as u8),
        low == spec_hex_char(l) as u8 || low == ascii_uppercase(spec_hex_char(l) as u8),
    ensures
        spec_radix_byte(high, low) == Some((16 * h + l) as u8),
{
}

/// Whether `byte` spells the digit `d` below sixteen, in either case.
pub open spec fn spells_digit(byte: u8, d: u8) -> bool {
    d < 16 && (byte == spec_hex_char(d) as u8 || byte == ascii_uppercase(spec_hex_char(d) as u8))
}

/// Digits of either case spell a color channel by channel: three or four
/// single digits give each channel as the digit repeated (seventeen times
/// its value); six or eight digits give each channel as a pair, sixteen
/// times the first digit plus the second; three and six digits are opaque.
pub proof fn lemma_digits_denote(bytes: Seq<u8>, d: Seq<u8>)
    requires
        bytes.len() == d.len(),
        forall|i: int| 0 <= i < bytes.len() ==> spells_digit(#[trigger] bytes[i], d[i]),
    ensures
        bytes.len() == 3 ==> spec_parse_bytes(bytes) == Some(
            Encoded::Rgb {
                red: (17 * d[0]) as u8,
                green: (17 * d[1]) as u8,
                blue: (17 * d[2]) as u8,
            },
        ),
        bytes.len() == 4 ==> spec_parse_bytes(bytes) == Some(
            Encoded::Rgba {
                red: (17 * d[0]) as u8,
                green: (17 * d[1]) as u8,
                blue: (17 * d[2]) as u8,
                alpha: (17 * d[3]) as u8,
            },
        ),
        bytes.len() == 6 ==> spec_parse_bytes(bytes) == Some(
            Encoded::Rgb {
                red: (16 * d[0] + d[1]) as u8,
                green: (16 * d[2] + d[3]) as u8,
                blue: (16 * d[4] + d[5]) as u8,
            },
        ),
        bytes.len() == 8 ==> spec_parse_bytes(bytes) == Some(
            Encoded::Rgba {
                red: (16 * d[0] + d[1]) as u8,
                green: (16 * d[2] + d[3]) as u8,
                blue: (16 * d[4] + d[5]) as u8,
                alpha: (16 * d[6] + d[7]) as u8,
            },
        ),
{
    assert forall|i: int| 0 <= i < bytes.len() implies spec_hex_digit(#[trigger] bytes[i]) == Some(
        d[i],
    ) && bytes[i] != 0x2b by {
        assert(spells_digit(bytes[i], d[i]));
    }
    if bytes.len() == 3 || bytes.len() == 4 {
        assert(spec_hex_digit(bytes[0]) == Some(d[0]));
        assert(spec_hex_digit(bytes[1]) == Some(d[1]));
        assert(spec_hex_digit(bytes[2]) == Some(d[2]));
        if bytes.len() == 4 {
            assert(spec_hex_digit(bytes[3]) == Some(d[3]));
        }
    }
    if bytes.len() == 6 || bytes.len() == 8 {
        lemma_digit_pair(bytes[0], bytes[1], d[0], d[1]);
        lemma_digit_pair(bytes[2], bytes[3], d[2], d[3]);
        lemma_digit_pair(bytes[4], bytes[5], d[4], d[5]);
        if bytes.len() == 8 {
            lemma_digit_pair(bytes[6], bytes[7], d[6], d[7]);
        }
    }
}

/// A byte with an ASCII small letter made capital.
pub open spec fn ascii_uppercase(byte: u8) -> u8 {
    if 0x61 <= byte <= 0x7a {
        (byte - 0x20) as u8
    } else {
        byte
    }
}

/// The lowercase hexadecimal digit for a value below sixteen.
pub open spec fn spec_hex_char(n: u8) -> char {
    if n < 10 {
        (0x30 + n) as char
    } else {
        (0x61 + n - 10) as char
    }
}

/// Two lowercase digits for a byte.
pub open spec fn spec_byte_chars(byte: u8) -> Seq<char> {
    seq![spec_hex_char(byte / 16), spec_hex_char(byte % 16)]
}

/// The spelling of a color: two digits per channel.
pub open spec fn spec_spelling(color: Encoded) -> Seq<char> {
    match color {
        Encoded::Rgb { red, green, blue } => spec_byte_chars(red) + spec_byte_chars(green)
            + spec_byte_chars(blue),
        Encoded::Rgba { red, green, blue, alpha } => spec_byte_chars(red) + spec_byte_chars(green)
            + spec_byte_chars(blue) + spec_byte_chars(alpha),
    }
}

pub(crate) fn hex_char(n: u8) -> (r: &'static str)
    requires
        n < 16,
    ensures
        r@ == seq![spec_hex_char(n)],
{
    proof {
        reveal_strlit("0");
        reveal_strlit("1");
        reveal_strlit("2");
        reveal_strlit("3");
        reveal_strlit("4");
        reveal_strlit("5");
        reveal_strlit("6");
        reveal_strlit("7");
        reveal_strlit("8");
        reveal_strlit("9");
        reveal_strlit("a");
        reveal_strlit("b");
        reveal_strlit("c");
        reveal_strlit("d");
        reveal_strlit("e");
        reveal_strlit("f");
    }
    let r = match n {
        0 => "0",
        1 => "1",
        2 => "2",
        3 => "3",
        4 => "4",
        5 => "5",
        6 => "6",
        7 => "7",
        8 => "8",
        9 => "9",
        10 => "a",
        11 => "b",
        12 => "c",
        13 => "d",
        14 => "e",
        _ => "f",
    };
    assert(r@ =~= seq![spec_hex_char(n)]);
    r
}

fn push_byte(text: &mut String, byte: u8)
    ensures
        final(text)@ == old(text)@ + spec_byte_chars(byte),
{
    text.append(hex_char(byte / 16));
    text.append(hex_char(byte % 16));
    assert(final(text)@ =~= old(text)@ + spec_byte_chars(byte));
}

/// Two lowercase hexadecimal digits per channel.
pub fn spelling(color: Encoded) -> (r: String)
    ensures
        r@ == spec_spelling(color),
{
    let mut text = String::new();
    match color {
        Encoded::Rgb { red, green, blue } => {
            push_byte(&mut text, red);
            push_byte(&mut text, green);
            push_byte(&mut text, blue);
            assert(text@ =~= spec_spelling(color));
        },
        Encoded::Rgba { red, green, blue, alpha } => {
            push_byte(&mut text, red);
            push_byte(&mut text, green);
            push_byte(&mut text, blue);
            push_byte(&mut text, alpha);
            assert(text@ =~= spec_spelling(color));
        },
    }
    text
}

/// The color stored in a record.
pub fn encoded(value: &Value) -> (r: Option<Encoded>)
    ensures
        r == spec_encoded(value@),
{
    let fields = match value.as_record() {
        Some(fields) => fields,
        None => return None,
    };
    if let Some(stored) = get(fields, RGBA) {
        if let Some(bytes) = stored.as_blob() {
            if bytes.len() == 4 {
                return Some(
                    Encoded::Rgba {
                        red: bytes[0],
                        green: bytes[1],
                        blue: bytes[2],
                        alpha: bytes[3],
                    },
                );
            }
        }
    }
    if let Some(stored) = get(fields, RGB) {
        if let Some(bytes) = stored.as_blob() {
            if bytes.len() == 3 {
                return Some(Encoded::Rgb { red: bytes[0], green: bytes[1], blue: bytes[2] });
            }
        }
    }
    None
}

/// The channels of the color stored in a record.
pub fn read(value: &Value) -> (r: Option<Rgba8>)
    ensures
        r == match spec_encoded(value@) {
            Some(color) => Some(spec_channels(color)),
            None => None,
        },
{
    match encoded(value) {
        Some(Encoded::Rgb { red, green, blue }) => Some(Rgba8 { red, green, blue, alpha: 0xff }),
        Some(Encoded::Rgba { red, green, blue, alpha }) => Some(Rgba8 { red, green, blue, alpha }),
        None => None,
    }
}

/// The field that stores `color`.
pub fn encoded_field(color: Encoded) -> (r: (CellId, Value))
    ensures
        r.0 == spec_key(color),
        r.1@ == Data::Blob(spec_bytes(color)),
{
    match color {
        Encoded::Rgb { red, green, blue } => {
            let mut bytes: Vec<u8> = Vec::new();
            bytes.push(red);
            bytes.push(green);
            bytes.push(blue);
            assert(bytes@ =~= spec_bytes(color));
            (RGB, Value::Blob(bytes))
        },
        Encoded::Rgba { red, green, blue, alpha } => {
            let mut bytes: Vec<u8> = Vec::new();
            bytes.push(red);
            bytes.push(green);
            bytes.push(blue);
            bytes.push(alpha);
            assert(bytes@ =~= spec_bytes(color));
            (RGBA, Value::Blob(bytes))
        },
    }
}

/// A record's fields with its stored color replaced.
pub open spec fn spec_recolored(fields: Seq<(CellId, Data)>, color: Encoded) -> Seq<
    (CellId, Data),
> {
    insert_field(
        remove_field(remove_field(fields, RGB), RGBA),
        spec_key(color),
        Data::Blob(spec_bytes(color)),
    )
}

/// The record with its color replaced; other fields stay.
pub fn replace_color(current: &Value, color: Encoded) -> (r: Option<Value>)
    requires
        current@.ordered(),
    ensures
        match current@.record() {
            Some(fields) => r matches Some(v) && v@ == Data::Record(spec_recolored(fields, color)),
            None => r is None,
        },
        r matches Some(v) ==> v@.is_sorted_record(),
{
    let mut fields = match current.duplicate() {
        Value::Record(fields) => fields,
        _ => return None,
    };
    let ghost given = fields_data(fields@);
    proof {
        lemma_remove_field(given, RGB);
        lemma_remove_field(remove_field(given, RGB), RGBA);
    }
    remove(&mut fields, RGB);
    remove(&mut fields, RGBA);
    let (key, bytes) = encoded_field(color);
    proof {
        lemma_insert_field(fields_data(fields@), key, bytes@);
    }
    insert(&mut fields, key, bytes);
    Some(Value::Record(fields))
}

/// The record that an edited spelling writes: nothing without a current
/// record or with a spelling that denotes no color.
pub fn edit(spelling: &str, current: Option<&Value>) -> (r: Option<Value>)
    requires
        current matches Some(c) ==> c@.ordered(),
    ensures
        match (current, spec_parse(spelling@)) {
            (Some(c), Some(color)) => match c@.record() {
                Some(fields) => r matches Some(v) && v@ == Data::Record(
                    spec_recolored(fields, color),
                ),
                None => r is None,
            },
            _ => r is None,
        },
{
    let current = match current {
        Some(current) => current,
        None => return None,
    };
    let color = match parse(spelling) {
        Some(color) => color,
        None => return None,
    };
    replace_color(current, color)
}

/// The selection without its picker state.
pub fn without_picker(selection: Option<&Value>) -> (r: Value)
    requires
        selection matches Some(s) ==> s@.ordered(),
    ensures
        r@ == Data::Record(
            match selection {
                Some(s) => match s@.record() {
                    Some(fields) => remove_field(fields, PICKER),
                    None => Seq::empty(),
                },
                None => Seq::empty(),
            },
        ),
        r@.is_sorted_record(),
{
    let mut fields: Vec<(CellId, Value)> = match selection {
        Some(selection) => match selection.duplicate() {
            Value::Record(fields) => fields,
            _ => Vec::new(),
        },
        None => Vec::new(),
    };
    proof {
        if fields@.len() == 0 {
            assert(fields_data(fields@) =~= Seq::empty());
        }
        lemma_remove_field(fields_data(fields@), PICKER);
        assert(remove_field(Seq::<(CellId, Data)>::empty(), PICKER) =~= Seq::empty());
    }
    remove(&mut fields, PICKER);
    Value::Record(fields)
}

proof fn lemma_hex_char(n: u8)
    requires
        n < 16,
    ensures
        is_ascii_alphanumeric(spec_hex_char(n)),
        '\0' <= spec_hex_char(n) <= '\u{7f}',
        spec_hex_digit(spec_hex_char(n) as u8) == Some(n),
        spec_hex_char(n) as u8 != 0x2b,
{
    if n < 10 {
        assert(spec_hex_char(n) as u8 == 0x30 + n);
    } else {
        assert(spec_hex_char(n) as u8 == 0x61 + n - 10);
    }
}

proof fn lemma_byte_chars(b: u8)
    ensures
        is_ascii_alphanumeric(spec_byte_chars(b)[0]),
        is_ascii_alphanumeric(spec_byte_chars(b)[1]),
        '\0' <= spec_byte_chars(b)[0] <= '\u{7f}',
        '\0' <= spec_byte_chars(b)[1] <= '\u{7f}',
        spec_radix_byte(spec_byte_chars(b)[0] as u8, spec_byte_chars(b)[1] as u8) == Some(b),
{
    lemma_hex_char(b / 16);
    lemma_hex_char(b % 16);
    assert((b / 16) * 16 + b % 16 == b);
}

/// A spelled color reads back as itself.
pub proof fn lemma_spelling_parses(color: Encoded)
    ensures
        is_ascii_chars(spec_spelling(color)),
        forall|i: int|
            0 <= i < spec_spelling(color).len() ==> is_ascii_alphanumeric(
                #[trigger] spec_spelling(color)[i],
            ),
        spec_parse_bytes(encode_utf8(spec_spelling(color))) == Some(color),
{
    let s = spec_spelling(color);
    match color {
        Encoded::Rgb { red, green, blue } => {
            lemma_byte_chars(red);
            lemma_byte_chars(green);
            lemma_byte_chars(blue);
            let (r, g, b) = (spec_byte_chars(red), spec_byte_chars(green), spec_byte_chars(blue));
            assert(s =~= seq![r[0], r[1], g[0], g[1], b[0], b[1]]);
            assert forall|i: int| 0 <= i < s.len() implies is_ascii_alphanumeric(#[trigger] s[i])
                && '\0' <= s[i] <= '\u{7f}' by {}
            is_ascii_chars_encode_utf8(s);
            let e = encode_utf8(s);
            assert(e[0] == s[0] as u8 && e[1] == s[1] as u8);
            assert(e[2] == s[2] as u8 && e[3] == s[3] as u8);
            assert(e[4] == s[4] as u8 && e[5] == s[5] as u8);
        },
        Encoded::Rgba { red, green, blue, alpha } => {
            lemma_byte_chars(red);
            lemma_byte_chars(green);
            lemma_byte_chars(blue);
            lemma_byte_chars(alpha);
            let (r, g, b, a) = (
                spec_byte_chars(red),
                spec_byte_chars(green),
                spec_byte_chars(blue),
                spec_byte_chars(alpha),
            );
            assert(s =~= seq![r[0], r[1], g[0], g[1], b[0], b[1], a[0], a[1]]);
            assert forall|i: int| 0 <= i < s.len() implies is_ascii_alphanumeric(#[trigger] s[i])
                && '\0' <= s[i] <= '\u{7f}' by {}
            is_ascii_chars_encode_utf8(s);
            let e = encode_utf8(s);
            assert(e[0] == s[0] as u8 && e[1] == s[1] as u8);
            assert(e[2] == s[2] as u8 && e[3] == s[3] as u8);
            assert(e[4] == s[4] as u8 && e[5] == s[5] as u8);
            assert(e[6] == s[6] as u8 && e[7] == s[7] as u8);
        },
    }
}

/// The color stored by replacing a record's color is that color, and the
/// record keeps every field but the color fields.
pub proof fn lemma_recolored(fields: Seq<(CellId, Data)>, color: Encoded)
    requires
        sorted(fields),
    ensures
        sorted(spec_recolored(fields, color)),
        spec_encoded(Data::Record(spec_recolored(fields, color))) == Some(color),
        forall|other: CellId|
            other != RGB && other != RGBA ==> field(
                #[trigger] spec_recolored(fields, color),
                other,
            ) == field(fields, other),
{
    let once = remove_field(fields, RGB);
    let twice = remove_field(once, RGBA);
    lemma_remove_field(fields, RGB);
    lemma_remove_field(once, RGBA);
    lemma_insert_field(twice, spec_key(color), Data::Blob(spec_bytes(color)));
    let r = spec_recolored(fields, color);
    match color {
        Encoded::Rgb { red, green, blue } => {
            assert(field(r, RGBA) == field(twice, RGBA));
            assert(field(r, RGB) == Some(Data::Blob(spec_bytes(color))));
        },
        Encoded::Rgba { red, green, blue, alpha } => {
            assert(field(r, RGBA) == Some(Data::Blob(spec_bytes(color))));
        },
    }
    assert forall|other: CellId| other != RGB && other != RGBA implies field(
        #[trigger] spec_recolored(fields, color),
        other,
    ) == field(fields, other) by {
        assert(field(twice, other) == field(once, other));
    }
}

} // verus!
