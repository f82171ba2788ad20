//! A strict JSON reader for manifest rows.
//!
//! The reader works on the UTF-8 bytes of one row and reports the byte offset of
//! what it rejects. Object fields keep their order and their duplicates, so that
//! a caller can refuse a row that names a field twice.
use crate::text::{dec, decode_text, hex_prefixed, push_dec_len, push_hex, utf8_error_text};
use vstd::prelude::*;

verus! {

/// How deep arrays and objects may nest.
pub const MAX_JSON_DEPTH: usize = 128;

/// A parsed JSON value. Numbers keep their text.
#[derive(Debug)]
pub enum ParsedJson {
    Null,
    Bool(bool),
    Number(String),
    String(String),
    Array(Vec<ParsedJson>),
    Object(Vec<(String, ParsedJson)>),
}

/// The mathematical content of a [`ParsedJson`].
pub enum ParsedView {
    Null,
    Bool(bool),
    Number(Seq<char>),
    String(Seq<char>),
    Array(Seq<ParsedView>),
    Object(Seq<(Seq<char>, ParsedView)>),
}

impl View for ParsedJson {
    type V = ParsedView;

    open spec fn view(&self) -> ParsedView
        decreases self,
    {
        match self {
            ParsedJson::Null => ParsedView::Null,
            ParsedJson::Bool(value) => ParsedView::Bool(*value),
            ParsedJson::Number(text) => ParsedView::Number(text@),
            ParsedJson::String(text) => ParsedView::String(text@),
            ParsedJson::Array(values) => ParsedView::Array(
                Seq::new(
                    values@.len(),
                    |i: int|
                        if 0 <= i < values@.len() {
                            values@[i].view()
                        } else {
                            ParsedView::Null
                        },
                ),
            ),
            ParsedJson::Object(fields) => ParsedView::Object(
                Seq::new(
                    fields@.len(),
                    |i: int|
                        if 0 <= i < fields@.len() {
                            (fields@[i].0@, fields@[i].1.view())
                        } else {
                            (Seq::empty(), ParsedView::Null)
                        },
                ),
            ),
        }
    }
}

/// The views of a list of values.
pub open spec fn value_views(values: Seq<ParsedJson>) -> Seq<ParsedView> {
    Seq::new(values.len(), |i: int| values[i]@)
}

/// The views of a list of fields.
pub open spec fn field_views(fields: Seq<(String, ParsedJson)>) -> Seq<(Seq<char>, ParsedView)> {
    Seq::new(fields.len(), |i: int| (fields[i].0@, fields[i].1@))
}

// ---------------------------------------------------------------------------
// The grammar
// ---------------------------------------------------------------------------

/// `b` is JSON whitespace.
pub open spec fn is_space(b: u8) -> bool {
    b == 0x20 || b == 0x09 || b == 0x0d || b == 0x0a
}

/// `b` is a decimal digit.
pub open spec fn is_digit(b: u8) -> bool {
    0x30 <= b <= 0x39
}

/// `s` has `b` at `at`.
pub open spec fn byte_at(s: Seq<u8>, at: int, b: u8) -> bool {
    0 <= at < s.len() && s[at] == b
}

/// How many bytes stand from `at` on.
pub open spec fn left(s: Seq<u8>, at: int) -> nat {
    if at < s.len() {
        (s.len() - at) as nat
    } else {
        0
    }
}

/// How many whitespace bytes stand at `at`.
pub open spec fn space_len(s: Seq<u8>, at: int) -> nat
    decreases s.len() - at,
{
    if 0 <= at < s.len() && is_space(s[at]) {
        1 + space_len(s, at + 1)
    } else {
        0
    }
}

/// How many digits stand at `at`.
pub open spec fn digit_len(s: Seq<u8>, at: int) -> nat
    decreases s.len() - at,
{
    if 0 <= at < s.len() && is_digit(s[at]) {
        1 + digit_len(s, at + 1)
    } else {
        0
    }
}

/// The message for a byte other than the one that has to stand at `at`.
pub open spec fn expected_message(b: u8, at: int) -> Seq<char> {
    "expected byte "@ + hex_prefixed(b as nat) + " at JSON offset "@ + dec(at as nat)
}

/// The length of the number at `at`: an integer part without leading zeros, then
/// an optional fraction and an optional exponent.
#[verifier::opaque]
pub open spec fn number_len(s: Seq<u8>, at: int) -> Result<nat, Seq<char>> {
    let sign: nat = if byte_at(s, at, 0x2d) {
        1
    } else {
        0
    };
    let first = at + sign;
    if byte_at(s, first, 0x30) {
        if 0 <= first + 1 < s.len() && is_digit(s[first + 1]) {
            Err("JSON number has a leading zero"@)
        } else {
            fraction_len(s, at, sign + 1)
        }
    } else if 0 <= first < s.len() && is_digit(s[first]) {
        fraction_len(s, at, sign + digit_len(s, first))
    } else {
        Err("invalid JSON number"@)
    }
}

/// The length of the number at `at` whose integer part has length `n`.
pub open spec fn fraction_len(s: Seq<u8>, at: int, n: nat) -> Result<nat, Seq<char>> {
    if byte_at(s, at + n, 0x2e) {
        let k = digit_len(s, at + n + 1);
        if k == 0 {
            Err("JSON fraction has no digits"@)
        } else {
            exponent_len(s, at, n + 1 + k)
        }
    } else {
        exponent_len(s, at, n)
    }
}

/// The length of the number at `at` whose integer part and fraction have
/// length `n`.
pub open spec fn exponent_len(s: Seq<u8>, at: int, n: nat) -> Result<nat, Seq<char>> {
    if byte_at(s, at + n, 0x65) || byte_at(s, at + n, 0x45) {
        let m: nat = if byte_at(s, at + n + 1, 0x2b) || byte_at(s, at + n + 1, 0x2d) {
            n + 2
        } else {
            n + 1
        };
        let k = digit_len(s, at + m);
        if k == 0 {
            Err("JSON exponent has no digits"@)
        } else {
            Ok(m + k)
        }
    } else {
        Ok(n)
    }
}

/// The text of the ASCII bytes `s[at..at + n]`.
pub open spec fn ascii_text(s: Seq<u8>, at: int, n: nat) -> Seq<char> {
    Seq::new(n, |i: int| s[at + i] as char)
}

/// The value of a hexadecimal digit.
pub open spec fn hex_digit(b: u8) -> Option<int> {
    if 0x30 <= b <= 0x39 {
        Some(b - 0x30)
    } else if 0x61 <= b <= 0x66 {
        Some(b - 0x61 + 10)
    } else if 0x41 <= b <= 0x46 {
        Some(b - 0x41 + 10)
    } else {
        None
    }
}

/// The value of the `n` hexadecimal digits at `at`, after digits worth `acc`.
pub open spec fn hex_run(s: Seq<u8>, at: int, n: nat, acc: int) -> Result<int, Seq<char>>
    decreases n,
{
    if n == 0 {
        Ok(acc)
    } else if !(0 <= at < s.len()) {
        Err("short JSON Unicode escape"@)
    } else {
        match hex_digit(s[at]) {
            None => Err("non-hex digit in JSON Unicode escape"@),
            Some(d) => hex_run(s, at + 1, (n - 1) as nat, acc * 16 + d),
        }
    }
}

/// The scalar of the `\u` escape whose digits begin at `at`, and whether it is
/// written as a surrogate pair.
pub open spec fn unicode_escape(s: Seq<u8>, at: int) -> Result<(int, bool), Seq<char>> {
    match hex_run(s, at, 4, 0) {
        Err(message) => Err(message),
        Ok(first) => if 0xd800 <= first <= 0xdbff {
            if !byte_at(s, at + 4, 0x5c) {
                Err(expected_message(0x5c, at + 4))
            } else if !byte_at(s, at + 5, 0x75) {
                Err(expected_message(0x75, at + 5))
            } else {
                match hex_run(s, at + 6, 4, 0) {
                    Err(message) => Err(message),
                    Ok(second) => if 0xdc00 <= second <= 0xdfff {
                        Ok((0x10000 + (first - 0xd800) * 0x400 + (second - 0xdc00), true))
                    } else {
                        Err("invalid low surrogate in JSON string"@)
                    },
                }
            }
        } else if 0xdc00 <= first <= 0xdfff {
            Err("lone low surrogate in JSON string"@)
        } else {
            Ok((first, false))
        },
    }
}

/// The byte that a one-letter escape stands for.
pub open spec fn simple_escape(b: u8) -> Option<u8> {
    if b == 0x22 || b == 0x5c || b == 0x2f {
        Some(b)
    } else if b == 0x62 {
        Some(0x08u8)
    } else if b == 0x66 {
        Some(0x0cu8)
    } else if b == 0x6e {
        Some(0x0au8)
    } else if b == 0x72 {
        Some(0x0du8)
    } else if b == 0x74 {
        Some(0x09u8)
    } else {
        None
    }
}

/// The message for an escape letter that JSON does not know.
pub open spec fn escape_message(b: u8) -> Seq<char> {
    ("invalid JSON escape `\\"@).push(b as char) + "`"@
}

/// What the string body at `at` stands for, as bytes appended to `acc`, and its
/// length with the closing quote.
pub open spec fn string_body(s: Seq<u8>, at: int, acc: Seq<u8>) -> Result<(Seq<u8>, nat), Seq<char>>
    decreases left(s, at),
{
    if !(0 <= at < s.len()) {
        Err("unterminated JSON string"@)
    } else if s[at] == 0x22 {
        Ok((acc, 1))
    } else if s[at] == 0x5c {
        if at + 1 >= s.len() {
            Err("unterminated JSON escape"@)
        } else if s[at + 1] == 0x75 {
            match unicode_escape(s, at + 2) {
                Err(message) => Err(message),
                Ok((scalar, pair)) => {
                    let width: nat = if pair {
                        12
                    } else {
                        6
                    };
                    longer(
                        string_body(s, at + width, acc + vstd::utf8::encode_scalar(scalar as u32)),
                        width,
                    )
                },
            }
        } else {
            match simple_escape(s[at + 1]) {
                Some(b) => longer(string_body(s, at + 2, acc.push(b)), 2),
                None => Err(escape_message(s[at + 1])),
            }
        }
    } else if s[at] < 0x20 {
        Err("unescaped control byte in JSON string"@)
    } else {
        longer(string_body(s, at + 1, acc.push(s[at])), 1)
    }
}

/// A parse that is `n` bytes longer.
pub open spec fn longer<T>(parsed: Result<(T, nat), Seq<char>>, n: nat) -> Result<(T, nat), Seq<char>> {
    match parsed {
        Ok((value, len)) => Ok((value, len + n)),
        Err(message) => Err(message),
    }
}

/// The string at `at` and its length with both quotes.
#[verifier::opaque]
pub open spec fn string_at(s: Seq<u8>, at: int) -> Result<(Seq<char>, nat), Seq<char>> {
    if !byte_at(s, at, 0x22) {
        Err(expected_message(0x22, at))
    } else {
        match string_body(s, at + 1, Seq::empty()) {
            Err(message) => Err(message),
            Ok((bytes, n)) => if vstd::utf8::valid_utf8(bytes) {
                Ok((vstd::utf8::decode_utf8(bytes), n + 1))
            } else {
                Err("JSON string is not UTF-8: "@ + utf8_error_text(bytes))
            },
        }
    }
}

/// `literal` stands at `at`.
#[verifier::opaque]
pub open spec fn literal_at(s: Seq<u8>, at: int, literal: Seq<u8>) -> bool {
    at + literal.len() <= s.len() && s.subrange(at, at + literal.len()) == literal
}

/// The message where a word that begins like a literal is not one.
pub open spec fn literal_message(at: int) -> Seq<char> {
    "invalid JSON literal at byte "@ + dec(at as nat)
}

/// The literal `word` at `at`, which stands for `value`.
pub open spec fn literal_value(s: Seq<u8>, at: int, word: Seq<u8>, value: ParsedView) -> Result<
    (ParsedView, nat),
    Seq<char>,
> {
    if literal_at(s, at, word) {
        Ok((value, word.len()))
    } else {
        Err(literal_message(at))
    }
}

/// The value at `at`, which is nested `depth` deep, and its length with the
/// whitespace before it.
pub open spec fn value_at(s: Seq<u8>, at: int, depth: nat) -> Result<(ParsedView, nat), Seq<char>>
    decreases MAX_JSON_DEPTH + 1 - depth, left(s, at), 0nat,
{
    if depth > MAX_JSON_DEPTH {
        Err("JSON nesting is too deep"@)
    } else {
        let gap = space_len(s, at);
        let p = at + gap;
        if !(0 <= p < s.len()) {
            Err("unexpected end of JSON"@)
        } else if s[p] == 0x6e {
            longer(literal_value(s, p, seq![0x6eu8, 0x75, 0x6c, 0x6c], ParsedView::Null), gap)
        } else if s[p] == 0x74 {
            longer(literal_value(s, p, seq![0x74u8, 0x72, 0x75, 0x65], ParsedView::Bool(true)), gap)
        } else if s[p] == 0x66 {
            longer(
                literal_value(s, p, seq![0x66u8, 0x61, 0x6c, 0x73, 0x65], ParsedView::Bool(false)),
                gap,
            )
        } else if s[p] == 0x22 {
            match string_at(s, p) {
                Ok((text, n)) => Ok((ParsedView::String(text), n + gap)),
                Err(message) => Err(message),
            }
        } else if s[p] == 0x5b {
            longer(array_at(s, p, depth + 1), gap)
        } else if s[p] == 0x7b {
            longer(object_at(s, p, depth + 1), gap)
        } else if s[p] == 0x2d || is_digit(s[p]) {
            match number_len(s, p) {
                Ok(n) => Ok((ParsedView::Number(ascii_text(s, p, n)), n + gap)),
                Err(message) => Err(message),
            }
        } else {
            Err(
                "unexpected byte "@ + hex_prefixed(s[p] as nat) + " at JSON offset "@ + dec(
                    p as nat,
                ),
            )
        }
    }
}

/// The array whose opening bracket stands at `at`.
pub open spec fn array_at(s: Seq<u8>, at: int, depth: nat) -> Result<(ParsedView, nat), Seq<char>>
    decreases MAX_JSON_DEPTH + 1 - depth, left(s, at), 3nat,
{
    let first = 1 + space_len(s, at + 1);
    if byte_at(s, at + first, 0x5d) {
        Ok((ParsedView::Array(Seq::empty()), first + 1))
    } else {
        match array_items(s, at + first, depth, Seq::empty()) {
            Ok((values, n)) => Ok((ParsedView::Array(values), n + first)),
            Err(message) => Err(message),
        }
    }
}

/// The items from `at` on, appended to `acc`, and their length with the closing
/// bracket.
pub open spec fn array_items(s: Seq<u8>, at: int, depth: nat, acc: Seq<ParsedView>) -> Result<
    (Seq<ParsedView>, nat),
    Seq<char>,
>
    decreases MAX_JSON_DEPTH + 1 - depth, left(s, at), 1nat,
{
    match value_at(s, at, depth) {
        Err(message) => Err(message),
        Ok((value, n)) => {
            let end = n + space_len(s, at + n);
            if byte_at(s, at + end, 0x5d) {
                Ok((acc.push(value), end + 1))
            } else if byte_at(s, at + end, 0x2c) {
                longer(array_items(s, at + end + 1, depth, acc.push(value)), end + 1)
            } else {
                Err(expected_message(0x2c, at + end))
            }
        },
    }
}

/// The object whose opening brace stands at `at`.
pub open spec fn object_at(s: Seq<u8>, at: int, depth: nat) -> Result<(ParsedView, nat), Seq<char>>
    decreases MAX_JSON_DEPTH + 1 - depth, left(s, at), 3nat,
{
    let first = 1 + space_len(s, at + 1);
    if byte_at(s, at + first, 0x7d) {
        Ok((ParsedView::Object(Seq::empty()), first + 1))
    } else {
        match object_fields(s, at + first, depth, Seq::empty()) {
            Ok((fields, n)) => Ok((ParsedView::Object(fields), n + first)),
            Err(message) => Err(message),
        }
    }
}

/// The field at `at`: a string, a colon and a value, and the length of it all.
pub open spec fn field_at(s: Seq<u8>, at: int, depth: nat) -> Result<
    ((Seq<char>, ParsedView), nat),
    Seq<char>,
>
    decreases MAX_JSON_DEPTH + 1 - depth, left(s, at), 1nat,
{
    let gap = space_len(s, at);
    match string_at(s, at + gap) {
        Err(message) => Err(message),
        Ok((key, k)) => {
            let after_key = gap + k;
            let colon = after_key + space_len(s, at + after_key);
            if !byte_at(s, at + colon, 0x3a) {
                Err(expected_message(0x3a, at + colon))
            } else {
                match value_at(s, at + colon + 1, depth) {
                    Err(message) => Err(message),
                    Ok((value, n)) => Ok(((key, value), n + colon + 1)),
                }
            }
        },
    }
}

/// The fields from `at` on, appended to `acc`, and their length with the closing
/// brace.
pub open spec fn object_fields(
    s: Seq<u8>,
    at: int,
    depth: nat,
    acc: Seq<(Seq<char>, ParsedView)>,
) -> Result<(Seq<(Seq<char>, ParsedView)>, nat), Seq<char>>
    decreases MAX_JSON_DEPTH + 1 - depth, left(s, at), 2nat,
{
    match field_at(s, at, depth) {
        Err(message) => Err(message),
        Ok((field, n)) => {
            let end = n + space_len(s, at + n);
            if byte_at(s, at + end, 0x7d) {
                Ok((acc.push(field), end + 1))
            } else if byte_at(s, at + end, 0x2c) {
                longer(object_fields(s, at + end + 1, depth, acc.push(field)), end + 1)
            } else {
                Err(expected_message(0x2c, at + end))
            }
        },
    }
}

/// What a JSON text stands for, or why it is not one.
pub open spec fn parse_json(s: Seq<u8>) -> Result<ParsedView, Seq<char>> {
    match value_at(s, 0, 0) {
        Err(message) => Err(message),
        Ok((value, n)) => {
            let end = n + space_len(s, n as int);
            if end == s.len() {
                Ok(value)
            } else {
                Err("trailing JSON data at byte "@ + dec(end))
            }
        },
    }
}

proof fn lemma_array_view(values: Vec<ParsedJson>)
    ensures
        ParsedJson::Array(values)@ == ParsedView::Array(value_views(values@)),
{
    assert(ParsedJson::Array(values)@->Array_0 =~= value_views(values@));
}

pub(crate) proof fn lemma_object_view(fields: Vec<(String, ParsedJson)>)
    ensures
        ParsedJson::Object(fields)@ == ParsedView::Object(field_views(fields@)),
{
    reveal_with_fuel(<ParsedJson as View>::view, 2);
    let seen = ParsedJson::Object(fields)@->Object_0;
    assert forall|i: int| 0 <= i < fields@.len() implies seen[i] == field_views(fields@)[i] by {
        assert(seen[i].1 == fields@[i].1@);
    }
    assert(seen =~= field_views(fields@));
}

proof fn lemma_field_views_push(fields: Seq<(String, ParsedJson)>, field: (String, ParsedJson))
    ensures
        field_views(fields.push(field)) == field_views(fields).push((field.0@, field.1@)),
{
    assert(field_views(fields.push(field)) =~= field_views(fields).push((field.0@, field.1@)));
}

// ---------------------------------------------------------------------------
// The reader
// ---------------------------------------------------------------------------

/// A reader over the bytes of one JSON text.
pub struct JsonParser<'a> {
    input: &'a [u8],
    offset: usize,
}

/// Appends the UTF-8 encoding of `scalar`.
fn push_scalar(out: &mut Vec<u8>, scalar: u32)
    requires
        scalar <= 0x10ffff,
        !(0xd800 <= scalar <= 0xdfff),
    ensures
        final(out)@ == old(out)@ + vstd::utf8::encode_scalar(scalar),
{
    let ghost before = out@;
    if scalar <= 0x7f {
        out.push((scalar & 0x7f) as u8);
    } else if scalar <= 0x7ff {
        out.push(0xc0 | ((scalar >> 6) & 0x1f) as u8);
        out.push(0x80 | (scalar & 0x3f) as u8);
    } else if scalar <= 0xffff {
        out.push(0xe0 | ((scalar >> 12) & 0x0f) as u8);
        out.push(0x80 | ((scalar >> 6) & 0x3f) as u8);
        out.push(0x80 | (scalar & 0x3f) as u8);
    } else {
        out.push(0xf0 | ((scalar >> 18) & 0x7) as u8);
        out.push(0x80 | ((scalar >> 12) & 0x3f) as u8);
        out.push(0x80 | ((scalar >> 6) & 0x3f) as u8);
        out.push(0x80 | (scalar & 0x3f) as u8);
    }
    proof {
        assert(out@ =~= before + vstd::utf8::encode_scalar(scalar));
    }
}

impl<'a> JsonParser<'a> {
    /// The bytes of the text.
    pub closed spec fn bytes(&self) -> Seq<u8> {
        self.input@
    }

    /// The number of bytes read so far.
    pub closed spec fn position(&self) -> int {
        self.offset as int
    }

    /// The reader stands within its text.
    pub closed spec fn well_formed(&self) -> bool {
        self.offset <= self.input@.len()
    }

    /// A reader at the start of `input`.
    pub fn new(input: &'a str) -> (r: JsonParser<'a>)
        ensures
            r.well_formed(),
            r.bytes() == vstd::utf8::encode_utf8(input@),
            r.position() == 0,
    {
        JsonParser { input: input.as_bytes(), offset: 0 }
    }

    /// Reads the whole text as one value.
    pub fn parse(self) -> (r: Result<ParsedJson, String>)
        requires
            self.well_formed(),
            self.position() == 0,
        ensures
            match r {
                Ok(value) => parse_json(self.bytes()) == Ok::<ParsedView, Seq<char>>(value@),
                Err(message) => parse_json(self.bytes()) == Err::<ParsedView, Seq<char>>(message@),
            },
    {
        let mut parser = self;
        let value = match parser.parse_value(0) {
            Ok(value) => value,
            Err(message) => return Err(message),
        };
        parser.whitespace();
        if parser.offset != parser.input.len() {
            let mut message = "trailing JSON data at byte ".to_owned();
            push_dec_len(&mut message, parser.offset);
            return Err(message);
        }
        Ok(value)
    }

    fn peek(&self) -> (r: Option<u8>)
        requires
            self.well_formed(),
        ensures
            match r {
                Some(b) => self.offset < self.input@.len() && b == self.input@[self.offset as int],
                None => self.offset == self.input@.len(),
            },
    {
        if self.offset < self.input.len() {
            Some(self.input[self.offset])
        } else {
            None
        }
    }

    fn next(&mut self) -> (r: Option<u8>)
        requires
            old(self).well_formed(),
        ensures
            final(self).well_formed(),
            final(self).input == old(self).input,
            match r {
                Some(b) => {
                    &&& old(self).offset < old(self).input@.len()
                    &&& b == old(self).input@[old(self).offset as int]
                    &&& final(self).offset == old(self).offset + 1
                },
                None => old(self).offset == old(self).input@.len() && final(self).offset == old(
                    self,
                ).offset,
            },
    {
        if self.offset < self.input.len() {
            let b: u8 = self.input[self.offset];
            self.offset = self.offset + 1;
            Some(b)
        } else {
            None
        }
    }

    fn consume(&mut self, byte: u8) -> (r: bool)
        requires
            old(self).well_formed(),
        ensures
            final(self).well_formed(),
            final(self).input == old(self).input,
            r == byte_at(old(self).input@, old(self).offset as int, byte),
            final(self).offset == old(self).offset + if r {
                1int
            } else {
                0
            },
    {
        if self.offset < self.input.len() && self.input[self.offset] == byte {
            self.offset = self.offset + 1;
            true
        } else {
            false
        }
    }

    fn expect(&mut self, byte: u8) -> (r: Result<(), String>)
        requires
            old(self).well_formed(),
        ensures
            final(self).well_formed(),
            final(self).input == old(self).input,
            match r {
                Ok(_) => byte_at(old(self).input@, old(self).offset as int, byte)
                    && final(self).offset == old(self).offset + 1,
                Err(message) => {
                    &&& !byte_at(old(self).input@, old(self).offset as int, byte)
                    &&& message@ == expected_message(byte, old(self).offset as int)
                    &&& final(self).offset == old(self).offset
                },
            },
    {
        if self.consume(byte) {
            Ok(())
        } else {
            let mut message = "expected byte ".to_owned();
            push_hex(&mut message, byte as u64);
            message.append(" at JSON offset ");
            push_dec_len(&mut message, self.offset);
            Err(message)
        }
    }

    fn whitespace(&mut self)
        requires
            old(self).well_formed(),
        ensures
            final(self).well_formed(),
            final(self).input == old(self).input,
            final(self).offset == old(self).offset + space_len(
                old(self).input@,
                old(self).offset as int,
            ),
    {
        let ghost start = self.offset as int;
        while self.offset < self.input.len() && (self.input[self.offset] == 0x20
            || self.input[self.offset] == 0x09 || self.input[self.offset] == 0x0d
            || self.input[self.offset] == 0x0a)
            invariant
                self.offset <= self.input@.len(),
                self.input == old(self).input,
                start <= self.offset,
                space_len(self.input@, start) == self.offset - start + space_len(
                    self.input@,
                    self.offset as int,
                ),
            decreases self.input@.len() - self.offset,
        {
            self.offset = self.offset + 1;
        }
    }

    fn digits(&mut self) -> (r: usize)
        requires
            old(self).well_formed(),
        ensures
            final(self).well_formed(),
            final(self).input == old(self).input,
            r == digit_len(old(self).input@, old(self).offset as int),
            final(self).offset == old(self).offset + r,
    {
        let start: usize = self.offset;
        while self.offset < self.input.len() && 0x30 <= self.input[self.offset]
            && self.input[self.offset] <= 0x39
            invariant
                self.offset <= self.input@.len(),
                self.input == old(self).input,
                start <= self.offset,
                digit_len(self.input@, start as int) == self.offset - start + digit_len(
                    self.input@,
                    self.offset as int,
                ),
            decreases self.input@.len() - self.offset,
        {
            self.offset = self.offset + 1;
        }
        self.offset - start
    }

    fn literal(&mut self, literal: &[u8]) -> (r: Result<(), String>)
        requires
            old(self).well_formed(),
        ensures
            final(self).well_formed(),
            final(self).input == old(self).input,
            match r {
                Ok(_) => literal_at(old(self).input@, old(self).offset as int, literal@)
                    && final(self).offset == old(self).offset + literal@.len(),
                Err(message) => {
                    &&& !literal_at(old(self).input@, old(self).offset as int, literal@)
                    &&& message@ == literal_message(old(self).offset as int)
                },
            },
    {
        let n: usize = literal.len();
        let mut same = n <= self.input.len() - self.offset;
        let mut i: usize = 0;
        let total: usize = self.input.len();
        while same && i < n
            invariant
                self.input == old(self).input,
                self.offset == old(self).offset,
                n == literal@.len(),
                total == self.input@.len(),
                self.offset <= total,
                i <= n,
                n > total - self.offset ==> !same,
                n <= total - self.offset ==> {
                    &&& same ==> forall|k: int|
                        0 <= k < i ==> self.input@[self.offset + k] == literal@[k]
                    &&& !same ==> exists|k: int|
                        0 <= k < n && #[trigger] self.input@[self.offset + k] != literal@[k]
                },
            decreases n - i, same as int,
        {
            if self.input[self.offset + i] != literal[i] {
                same = false;
                proof {
                    assert(self.input@[self.offset + i as int] != literal@[i as int]);
                }
            } else {
                i += 1;
            }
        }
        proof {
            reveal(literal_at);
            let at = self.offset as int;
            if n <= total - self.offset {
                if same {
                    assert(self.input@.subrange(at, at + n) =~= literal@);
                } else {
                    let k = choose|k: int|
                        0 <= k < n && #[trigger] self.input@[self.offset + k] != literal@[k];
                    assert(self.input@.subrange(at, at + n)[k] == self.input@[at + k]);
                }
            }
        }
        if same {
            self.offset = self.offset + n;
            Ok(())
        } else {
            let mut message = "invalid JSON literal at byte ".to_owned();
            push_dec_len(&mut message, self.offset);
            Err(message)
        }
    }

    fn hex4(&mut self) -> (r: Result<u16, String>)
        requires
            old(self).well_formed(),
        ensures
            final(self).well_formed(),
            final(self).input == old(self).input,
            match r {
                Ok(value) => hex_run(old(self).input@, old(self).offset as int, 4, 0) == Ok::<
                    int,
                    Seq<char>,
                >(value as int) && final(self).offset == old(self).offset + 4,
                Err(message) => hex_run(old(self).input@, old(self).offset as int, 4, 0) == Err::<
                    int,
                    Seq<char>,
                >(message@),
            },
    {
        let mut value: u16 = 0;
        let mut i: u8 = 0;
        while i < 4
            invariant
                i <= 4,
                self.well_formed(),
                self.input == old(self).input,
                self.offset == old(self).offset + i,
                i == 0 ==> value == 0,
                i == 1 ==> value < 0x10,
                i == 2 ==> value < 0x100,
                i == 3 ==> value < 0x1000,
                hex_run(self.input@, old(self).offset as int, 4, 0) == hex_run(
                    self.input@,
                    self.offset as int,
                    (4 - i) as nat,
                    value as int,
                ),
            decreases 4 - i,
        {
            let byte: u8 = match self.next() {
                Some(byte) => byte,
                None => return Err("short JSON Unicode escape".to_owned()),
            };
            let digit: u8 = if 0x30 <= byte && byte <= 0x39 {
                byte - 0x30
            } else if 0x61 <= byte && byte <= 0x66 {
                byte - 0x61 + 10
            } else if 0x41 <= byte && byte <= 0x46 {
                byte - 0x41 + 10
            } else {
                return Err("non-hex digit in JSON Unicode escape".to_owned());
            };
            value = value * 16 + digit as u16;
            i += 1;
        }
        Ok(value)
    }

    fn unicode_scalar(&mut self) -> (r: Result<u32, String>)
        requires
            old(self).well_formed(),
        ensures
            final(self).well_formed(),
            final(self).input == old(self).input,
            match r {
                Ok(scalar) => {
                    let pair = final(self).offset == old(self).offset + 10;
                    &&& unicode_escape(old(self).input@, old(self).offset as int) == Ok::<
                        (int, bool),
                        Seq<char>,
                    >((scalar as int, pair))
                    &&& pair || final(self).offset == old(self).offset + 4
                    &&& scalar <= 0x10ffff
                    &&& !(0xd800 <= scalar <= 0xdfff)
                },
                Err(message) => unicode_escape(old(self).input@, old(self).offset as int) == Err::<
                    (int, bool),
                    Seq<char>,
                >(message@),
            },
    {
        let first: u16 = match self.hex4() {
            Ok(first) => first,
            Err(message) => return Err(message),
        };
        if 0xd800 <= first && first <= 0xdbff {
            match self.expect(0x5c) {
                Ok(_) => {},
                Err(message) => return Err(message),
            }
            match self.expect(0x75) {
                Ok(_) => {},
                Err(message) => return Err(message),
            }
            let second: u16 = match self.hex4() {
                Ok(second) => second,
                Err(message) => return Err(message),
            };
            if !(0xdc00 <= second && second <= 0xdfff) {
                return Err("invalid low surrogate in JSON string".to_owned());
            }
            Ok(0x10000 + (first as u32 - 0xd800) * 0x400 + (second as u32 - 0xdc00))
        } else if 0xdc00 <= first && first <= 0xdfff {
            Err("lone low surrogate in JSON string".to_owned())
        } else {
            Ok(first as u32)
        }
    }

    fn parse_string(&mut self) -> (r: Result<String, String>)
        requires
            old(self).well_formed(),
        ensures
            final(self).well_formed(),
            final(self).input == old(self).input,
            match r {
                Ok(text) => {
                    &&& final(self).offset >= old(self).offset
                    &&& string_at(old(self).input@, old(self).offset as int) == Ok::<
                        (Seq<char>, nat),
                        Seq<char>,
                    >((text@, (final(self).offset - old(self).offset) as nat))
                },
                Err(message) => string_at(old(self).input@, old(self).offset as int) == Err::<
                    (Seq<char>, nat),
                    Seq<char>,
                >(message@),
            },
    {
        proof {
            reveal(string_at);
        }
        match self.expect(0x22) {
            Ok(_) => {},
            Err(message) => return Err(message),
        }
        let ghost s = self.input@;
        let ghost start = self.offset as int;
        let mut output: Vec<u8> = Vec::new();
        loop
            invariant
                self.well_formed(),
                self.input == old(self).input,
                s == self.input@,
                start == old(self).offset + 1,
                byte_at(s, old(self).offset as int, 0x22),
                start <= self.offset,
                string_body(s, start, Seq::empty()) == longer(
                    string_body(s, self.offset as int, output@),
                    (self.offset - start) as nat,
                ),
            decreases self.input@.len() - self.offset,
        {
            proof {
                reveal(string_at);
            }
            let byte: u8 = match self.next() {
                Some(byte) => byte,
                None => return Err("unterminated JSON string".to_owned()),
            };
            if byte == 0x22 {
                return match decode_text(&output) {
                    Ok(text) => Ok(text),
                    Err(error) => {
                        let mut message = "JSON string is not UTF-8: ".to_owned();
                        message.append(error.as_str());
                        Err(message)
                    },
                };
            } else if byte == 0x5c {
                let escaped: u8 = match self.next() {
                    Some(escaped) => escaped,
                    None => return Err("unterminated JSON escape".to_owned()),
                };
                if escaped == 0x75 {
                    match self.unicode_scalar() {
                        Ok(scalar) => push_scalar(&mut output, scalar),
                        Err(message) => return Err(message),
                    }
                } else if escaped == 0x22 || escaped == 0x5c || escaped == 0x2f {
                    output.push(escaped);
                } else if escaped == 0x62 {
                    output.push(0x08);
                } else if escaped == 0x66 {
                    output.push(0x0c);
                } else if escaped == 0x6e {
                    output.push(0x0a);
                } else if escaped == 0x72 {
                    output.push(0x0d);
                } else if escaped == 0x74 {
                    output.push(0x09);
                } else {
                    let mut message = "invalid JSON escape `\\".to_owned();
                    message.push(escaped as char);
                    message.append("`");
                    return Err(message);
                }
            } else if byte < 0x20 {
                return Err("unescaped control byte in JSON string".to_owned());
            } else {
                output.push(byte);
            }
        }
    }

    fn integer_part(&mut self) -> (r: Result<(), String>)
        requires
            old(self).well_formed(),
        ensures
            final(self).well_formed(),
            final(self).input == old(self).input,
            final(self).offset >= old(self).offset,
            match r {
                Ok(_) => number_len(old(self).input@, old(self).offset as int) == fraction_len(
                    old(self).input@,
                    old(self).offset as int,
                    (final(self).offset - old(self).offset) as nat,
                ),
                Err(message) => number_len(old(self).input@, old(self).offset as int) == Err::<
                    nat,
                    Seq<char>,
                >(message@),
            },
    {
        proof {
            reveal(number_len);
        }
        let _ = self.consume(0x2d);
        match self.peek() {
            Some(byte) => {
                if byte == 0x30 {
                    let _ = self.consume(0x30);
                    match self.peek() {
                        Some(after) => {
                            if 0x30 <= after && after <= 0x39 {
                                return Err("JSON number has a leading zero".to_owned());
                            }
                        },
                        None => {},
                    }
                    Ok(())
                } else if 0x31 <= byte && byte <= 0x39 {
                    let _ = self.digits();
                    Ok(())
                } else {
                    Err("invalid JSON number".to_owned())
                }
            },
            None => Err("invalid JSON number".to_owned()),
        }
    }

    fn fraction_part(&mut self, start: usize) -> (r: Result<(), String>)
        requires
            old(self).well_formed(),
            start <= old(self).offset,
        ensures
            final(self).well_formed(),
            final(self).input == old(self).input,
            final(self).offset >= old(self).offset,
            ({
                let s = old(self).input@;
                let n = (old(self).offset - start) as nat;
                match r {
                    Ok(_) => fraction_len(s, start as int, n) == exponent_len(
                        s,
                        start as int,
                        (final(self).offset - start) as nat,
                    ),
                    Err(message) => fraction_len(s, start as int, n) == Err::<nat, Seq<char>>(
                        message@,
                    ),
                }
            }),
    {
        if self.consume(0x2e) {
            let count: usize = self.digits();
            if count == 0 {
                return Err("JSON fraction has no digits".to_owned());
            }
        }
        Ok(())
    }

    fn exponent_part(&mut self, start: usize) -> (r: Result<(), String>)
        requires
            old(self).well_formed(),
            start <= old(self).offset,
        ensures
            final(self).well_formed(),
            final(self).input == old(self).input,
            final(self).offset >= old(self).offset,
            ({
                let s = old(self).input@;
                let n = (old(self).offset - start) as nat;
                match r {
                    Ok(_) => exponent_len(s, start as int, n) == Ok::<nat, Seq<char>>(
                        (final(self).offset - start) as nat,
                    ),
                    Err(message) => exponent_len(s, start as int, n) == Err::<nat, Seq<char>>(
                        message@,
                    ),
                }
            }),
    {
        let marked = self.consume(0x65) || self.consume(0x45);
        if marked {
            let signed = self.consume(0x2b) || self.consume(0x2d);
            let count: usize = self.digits();
            if count == 0 {
                return Err("JSON exponent has no digits".to_owned());
            }
        }
        Ok(())
    }

    fn parse_number(&mut self) -> (r: Result<String, String>)
        requires
            old(self).well_formed(),
        ensures
            final(self).well_formed(),
            final(self).input == old(self).input,
            match r {
                Ok(text) => {
                    let n = (final(self).offset - old(self).offset) as nat;
                    &&& final(self).offset >= old(self).offset
                    &&& number_len(old(self).input@, old(self).offset as int) == Ok::<
                        nat,
                        Seq<char>,
                    >(n)
                    &&& text@ == ascii_text(old(self).input@, old(self).offset as int, n)
                },
                Err(message) => number_len(old(self).input@, old(self).offset as int) == Err::<
                    nat,
                    Seq<char>,
                >(message@),
            },
    {
        let start: usize = self.offset;
        match self.integer_part() {
            Ok(_) => {},
            Err(message) => return Err(message),
        }
        match self.fraction_part(start) {
            Ok(_) => {},
            Err(message) => return Err(message),
        }
        match self.exponent_part(start) {
            Ok(_) => {},
            Err(message) => return Err(message),
        }
        let mut text = String::new();
        let mut i: usize = start;
        while i < self.offset
            invariant
                start <= i <= self.offset <= self.input@.len(),
                text@ =~= ascii_text(self.input@, start as int, (i - start) as nat),
            decreases self.offset - i,
        {
            text.push(self.input[i] as char);
            i += 1;
        }
        Ok(text)
    }

    #[verifier::spinoff_prover]
    #[verifier::rlimit(60)]
    fn parse_value(&mut self, depth: usize) -> (r: Result<ParsedJson, String>)
        requires
            old(self).well_formed(),
            depth <= MAX_JSON_DEPTH + 1,
        ensures
            final(self).well_formed(),
            final(self).input == old(self).input,
            match r {
                Ok(value) => {
                    &&& final(self).offset >= old(self).offset
                    &&& value_at(old(self).input@, old(self).offset as int, depth as nat) == Ok::<
                        (ParsedView, nat),
                        Seq<char>,
                    >((value@, (final(self).offset - old(self).offset) as nat))
                },
                Err(message) => value_at(old(self).input@, old(self).offset as int, depth as nat)
                    == Err::<(ParsedView, nat), Seq<char>>(message@),
            },
        decreases MAX_JSON_DEPTH + 1 - depth, 0nat,
    {
        if depth > MAX_JSON_DEPTH {
            return Err("JSON nesting is too deep".to_owned());
        }
        self.whitespace();
        let byte: u8 = match self.peek() {
            Some(byte) => byte,
            None => return Err("unexpected end of JSON".to_owned()),
        };
        if byte == 0x6e {
            let word: [u8; 4] = [0x6e, 0x75, 0x6c, 0x6c];
            proof {
                assert(word@ =~= seq![0x6eu8, 0x75, 0x6c, 0x6c]);
            }
            match self.literal(&word) {
                Ok(_) => Ok(ParsedJson::Null),
                Err(message) => Err(message),
            }
        } else if byte == 0x74 {
            let word: [u8; 4] = [0x74, 0x72, 0x75, 0x65];
            proof {
                assert(word@ =~= seq![0x74u8, 0x72, 0x75, 0x65]);
            }
            match self.literal(&word) {
                Ok(_) => Ok(ParsedJson::Bool(true)),
                Err(message) => Err(message),
            }
        } else if byte == 0x66 {
            let word: [u8; 5] = [0x66, 0x61, 0x6c, 0x73, 0x65];
            proof {
                assert(word@ =~= seq![0x66u8, 0x61, 0x6c, 0x73, 0x65]);
            }
            match self.literal(&word) {
                Ok(_) => Ok(ParsedJson::Bool(false)),
                Err(message) => Err(message),
            }
        } else if byte == 0x22 {
            match self.parse_string() {
                Ok(text) => Ok(ParsedJson::String(text)),
                Err(message) => Err(message),
            }
        } else if byte == 0x5b {
            self.parse_array(depth + 1)
        } else if byte == 0x7b {
            self.parse_object(depth + 1)
        } else if byte == 0x2d || (0x30 <= byte && byte <= 0x39) {
            match self.parse_number() {
                Ok(text) => Ok(ParsedJson::Number(text)),
                Err(message) => Err(message),
            }
        } else {
            let mut message = "unexpected byte ".to_owned();
            push_hex(&mut message, byte as u64);
            message.append(" at JSON offset ");
            push_dec_len(&mut message, self.offset);
            Err(message)
        }
    }

    #[verifier::spinoff_prover]
    #[verifier::rlimit(60)]
    fn parse_array(&mut self, depth: usize) -> (r: Result<ParsedJson, String>)
        requires
            old(self).well_formed(),
            byte_at(old(self).input@, old(self).offset as int, 0x5b),
            depth <= MAX_JSON_DEPTH + 1,
        ensures
            final(self).well_formed(),
            final(self).input == old(self).input,
            match r {
                Ok(value) => {
                    &&& final(self).offset >= old(self).offset
                    &&& array_at(old(self).input@, old(self).offset as int, depth as nat) == Ok::<
                        (ParsedView, nat),
                        Seq<char>,
                    >((value@, (final(self).offset - old(self).offset) as nat))
                },
                Err(message) => array_at(old(self).input@, old(self).offset as int, depth as nat)
                    == Err::<(ParsedView, nat), Seq<char>>(message@),
            },
        decreases MAX_JSON_DEPTH + 1 - depth, 1nat,
    {
        match self.expect(0x5b) {
            Ok(_) => {},
            Err(message) => return Err(message),
        }
        self.whitespace();
        let mut values: Vec<ParsedJson> = Vec::new();
        if self.consume(0x5d) {
            let value = ParsedJson::Array(values);
            proof {
                assert(value@->Array_0 =~= Seq::empty());
            }
            return Ok(value);
        }
        let ghost s = self.input@;
        let ghost start = self.offset as int;
        proof {
            assert(value_views(values@) =~= Seq::empty());
        }
        loop
            invariant
                self.well_formed(),
                self.input == old(self).input,
                s == self.input@,
                start <= self.offset,
                depth <= MAX_JSON_DEPTH + 1,
                start == old(self).offset + 1 + space_len(s, old(self).offset + 1),
                !byte_at(s, start, 0x5d),
                array_items(s, start, depth as nat, Seq::empty()) == longer(
                    array_items(s, self.offset as int, depth as nat, value_views(values@)),
                    (self.offset - start) as nat,
                ),
            decreases self.input@.len() - self.offset,
        {
            let ghost before = value_views(values@);
            let value = match self.parse_value(depth) {
                Ok(value) => value,
                Err(message) => return Err(message),
            };
            let ghost item = value@;
            values.push(value);
            proof {
                assert(value_views(values@) =~= before.push(item));
            }
            self.whitespace();
            if self.consume(0x5d) {
                proof {
                    lemma_array_view(values);
                }
                return Ok(ParsedJson::Array(values));
            }
            match self.expect(0x2c) {
                Ok(_) => {},
                Err(message) => return Err(message),
            }
        }
    }

    #[verifier::spinoff_prover]
    #[verifier::rlimit(60)]
    fn parse_field(&mut self, depth: usize) -> (r: Result<(String, ParsedJson), String>)
        requires
            old(self).well_formed(),
            depth <= MAX_JSON_DEPTH + 1,
        ensures
            final(self).well_formed(),
            final(self).input == old(self).input,
            match r {
                Ok((key, value)) => {
                    &&& final(self).offset >= old(self).offset
                    &&& field_at(old(self).input@, old(self).offset as int, depth as nat) == Ok::<
                        ((Seq<char>, ParsedView), nat),
                        Seq<char>,
                    >(((key@, value@), (final(self).offset - old(self).offset) as nat))
                },
                Err(message) => field_at(old(self).input@, old(self).offset as int, depth as nat)
                    == Err::<((Seq<char>, ParsedView), nat), Seq<char>>(message@),
            },
        decreases MAX_JSON_DEPTH + 1 - depth, 1nat,
    {
        self.whitespace();
        let key = match self.parse_string() {
            Ok(key) => key,
            Err(message) => return Err(message),
        };
        self.whitespace();
        match self.expect(0x3a) {
            Ok(_) => {},
            Err(message) => return Err(message),
        }
        match self.parse_value(depth) {
            Ok(value) => Ok((key, value)),
            Err(message) => Err(message),
        }
    }

    #[verifier::spinoff_prover]
    #[verifier::rlimit(60)]
    fn parse_object(&mut self, depth: usize) -> (r: Result<ParsedJson, String>)
        requires
            old(self).well_formed(),
            byte_at(old(self).input@, old(self).offset as int, 0x7b),
            depth <= MAX_JSON_DEPTH + 1,
        ensures
            final(self).well_formed(),
            final(self).input == old(self).input,
            match r {
                Ok(value) => {
                    &&& final(self).offset >= old(self).offset
                    &&& object_at(old(self).input@, old(self).offset as int, depth as nat) == Ok::<
                        (ParsedView, nat),
                        Seq<char>,
                    >((value@, (final(self).offset - old(self).offset) as nat))
                },
                Err(message) => object_at(old(self).input@, old(self).offset as int, depth as nat)
                    == Err::<(ParsedView, nat), Seq<char>>(message@),
            },
        decreases MAX_JSON_DEPTH + 1 - depth, 2nat,
    {
        match self.expect(0x7b) {
            Ok(_) => {},
            Err(message) => return Err(message),
        }
        self.whitespace();
        let mut fields: Vec<(String, ParsedJson)> = Vec::new();
        if self.consume(0x7d) {
            let value = ParsedJson::Object(fields);
            proof {
                assert(value@->Object_0 =~= Seq::empty());
            }
            return Ok(value);
        }
        let ghost s = self.input@;
        let ghost start = self.offset as int;
        proof {
            assert(field_views(fields@) =~= Seq::empty());
        }
        loop
            invariant
                self.well_formed(),
                self.input == old(self).input,
                s == self.input@,
                start <= self.offset,
                depth <= MAX_JSON_DEPTH + 1,
                start == old(self).offset + 1 + space_len(s, old(self).offset + 1),
                !byte_at(s, start, 0x7d),
                object_fields(s, start, depth as nat, Seq::empty()) == longer(
                    object_fields(s, self.offset as int, depth as nat, field_views(fields@)),
                    (self.offset - start) as nat,
                ),
            decreases self.input@.len() - self.offset,
        {
            let field = match self.parse_field(depth) {
                Ok(field) => field,
                Err(message) => return Err(message),
            };
            proof {
                lemma_field_views_push(fields@, field);
            }
            fields.push(field);
            self.whitespace();
            if self.consume(0x7d) {
                proof {
                    lemma_object_view(fields);
                }
                return Ok(ParsedJson::Object(fields));
            }
            match self.expect(0x2c) {
                Ok(_) => {},
                Err(message) => return Err(message),
            }
        }
    }
}

// ---------------------------------------------------------------------------
// Laws
// ---------------------------------------------------------------------------

/// Blanks, tabs, returns and line feeds are passed over, and nothing else is.
pub proof fn law_spaces_are_passed_over(s: Seq<u8>, at: int)
    requires
        0 <= at <= s.len(),
    ensures
        ({
            let n = space_len(s, at) as int;
            &&& at + n <= s.len()
            &&& forall|i: int|
                at <= i < at + n ==> (#[trigger] s[i] == 0x20 || s[i] == 0x09 || s[i] == 0x0a
                    || s[i] == 0x0d)
            &&& at + n < s.len() ==> s[at + n] != 0x20 && s[at + n] != 0x09 && s[at + n] != 0x0a
                && s[at + n] != 0x0d
        }),
    decreases s.len() - at,
{
    if at < s.len() && is_space(s[at]) {
        law_spaces_are_passed_over(s, at + 1);
    }
}

/// A run of digits is as long as it can be.
pub proof fn law_digits_are_taken_together(s: Seq<u8>, at: int)
    requires
        0 <= at <= s.len(),
    ensures
        ({
            let n = digit_len(s, at) as int;
            &&& at + n <= s.len()
            &&& forall|i: int| at <= i < at + n ==> 0x30 <= #[trigger] s[i] <= 0x39
            &&& at + n < s.len() ==> !(0x30 <= s[at + n] <= 0x39)
        }),
    decreases s.len() - at,
{
    if at < s.len() && is_digit(s[at]) {
        law_digits_are_taken_together(s, at + 1);
    }
}

/// `s` has digits from `at` to `to`, and at least one.
pub open spec fn is_digit_run(s: Seq<u8>, at: int, to: int) -> bool {
    &&& 0 <= at < to <= s.len()
    &&& forall|i: int| at <= i < to ==> 0x30 <= #[trigger] s[i] <= 0x39
}

/// A number is a sign or none, digits without a leading zero, then a point with digits or
/// none, then an exponent with digits or none. It goes on as long as it can.
pub proof fn law_number_has_its_parts(s: Seq<u8>, at: int) -> (ends: (int, int))
    requires
        0 <= at <= s.len(),
        number_len(s, at) is Ok,
    ensures
        ({
            let end = at + number_len(s, at)->Ok_0;
            let first = if at < s.len() && s[at] == 0x2d {
                at + 1
            } else {
                at
            };
            let (whole, fraction) = ends;
            &&& is_digit_run(s, first, whole)
            &&& whole > first + 1 ==> s[first] != 0x30
            &&& fraction != whole ==> whole < s.len() && s[whole] == 0x2e && is_digit_run(
                s,
                whole + 1,
                fraction,
            )
            &&& end != fraction ==> {
                let digits = if s[fraction + 1] == 0x2b || s[fraction + 1] == 0x2d {
                    fraction + 2
                } else {
                    fraction + 1
                };
                &&& fraction < s.len()
                &&& s[fraction] == 0x65 || s[fraction] == 0x45
                &&& is_digit_run(s, digits, end)
            }
            &&& end <= s.len()
            &&& end < s.len() ==> !(0x30 <= s[end] <= 0x39)
            &&& fraction == whole && whole < s.len() ==> s[whole] != 0x2e
            &&& end == fraction && fraction < s.len() ==> s[fraction] != 0x65 && s[fraction]
                != 0x45
        }),
{
    reveal(number_len);
    let first = if at < s.len() && s[at] == 0x2d {
        at + 1
    } else {
        at
    };
    let sign: nat = if byte_at(s, at, 0x2d) {
        1
    } else {
        0
    };
    assert(first == at + sign);
    law_digits_are_taken_together(s, first);
    let whole = if s[first] == 0x30 {
        first + 1
    } else {
        first + digit_len(s, first)
    };
    assert(byte_at(s, at + sign, 0x30) || 0 <= at + sign < s.len() && is_digit(s[at + sign]));
    assert(first < s.len() && is_digit(s[first]));
    assert(digit_len(s, first) > 0);
    let n: nat = (whole - at) as nat;
    assert(fraction_len(s, at, n) == number_len(s, at));
    assert(at + n == whole);
    let fraction = if byte_at(s, whole, 0x2e) {
        law_digits_are_taken_together(s, whole + 1);
        whole + 1 + digit_len(s, whole + 1)
    } else {
        whole
    };
    let m: nat = (fraction - at) as nat;
    assert(exponent_len(s, at, m) == number_len(s, at));
    assert(at + m == fraction);
    if byte_at(s, fraction, 0x65) || byte_at(s, fraction, 0x45) {
        let start = if byte_at(s, fraction + 1, 0x2b) || byte_at(s, fraction + 1, 0x2d) {
            fraction + 2
        } else {
            fraction + 1
        };
        law_digits_are_taken_together(s, start);
        assert(digit_len(s, start) > 0);
    }
    (whole, fraction)
}

/// A number is refused where it has no digits, a leading zero, or a point or an exponent
/// without digits.
pub proof fn law_number_is_refused_for_a_reason(s: Seq<u8>, at: int)
    requires
        0 <= at <= s.len(),
        number_len(s, at) is Err,
    ensures
        ({
            let first = if at < s.len() && s[at] == 0x2d {
                at + 1
            } else {
                at
            };
            ||| first >= s.len()
            ||| !(0x30 <= s[first] <= 0x39)
            ||| s[first] == 0x30 && first + 1 < s.len() && 0x30 <= s[first + 1] <= 0x39
            ||| exists|k: int|
                first < k < s.len() && (#[trigger] s[k] == 0x2e || s[k] == 0x65 || s[k] == 0x45)
                    && (k + 1 >= s.len() || !(0x30 <= s[k + 1] <= 0x39))
        }),
{
    reveal(number_len);
    let first = if at < s.len() && s[at] == 0x2d {
        at + 1
    } else {
        at
    };
    if first < s.len() && is_digit(s[first]) && !(s[first] == 0x30 && first + 1 < s.len()
        && is_digit(s[first + 1])) {
        law_digits_are_taken_together(s, first);
        let whole = if s[first] == 0x30 {
            first + 1
        } else {
            first + digit_len(s, first)
        };
        assert(digit_len(s, first) > 0);
        let n: nat = (whole - at) as nat;
        assert(fraction_len(s, at, n) == number_len(s, at));
        assert(at + n == whole);
        if byte_at(s, whole, 0x2e) && digit_len(s, whole + 1) == 0 {
            assert(s[whole] == 0x2e);
            law_digits_are_taken_together(s, whole + 1);
        } else {
            let fraction = if byte_at(s, whole, 0x2e) {
                law_digits_are_taken_together(s, whole + 1);
                whole + 1 + digit_len(s, whole + 1)
            } else {
                whole
            };
            let m: nat = (fraction - at) as nat;
            assert(exponent_len(s, at, m) == number_len(s, at));
            assert(at + m == fraction);
            assert(byte_at(s, fraction, 0x65) || byte_at(s, fraction, 0x45));
            let k = fraction;
            assert(s[k] == 0x65 || s[k] == 0x45);
            if k + 1 < s.len() && is_digit(s[k + 1]) {
                law_digits_are_taken_together(s, k + 1);
                assert(digit_len(s, k + 1) > 0);
            }
        }
    }
}

/// The value of a hexadecimal digit of either case.
pub proof fn law_hexadecimal_digits(b: u8)
    ensures
        '0' as u8 <= b <= '9' as u8 ==> hex_digit(b) == Some(b - '0' as u8),
        'a' as u8 <= b <= 'f' as u8 ==> hex_digit(b) == Some(b - 'a' as u8 + 10),
        'A' as u8 <= b <= 'F' as u8 ==> hex_digit(b) == Some(b - 'A' as u8 + 10),
        !('0' as u8 <= b <= '9' as u8) && !('a' as u8 <= b <= 'f' as u8) && !('A' as u8 <= b
            <= 'F' as u8) ==> hex_digit(b) is None,
{
}

/// What four hexadecimal digits stand for, the highest first.
pub open spec fn four_digits(s: Seq<u8>, at: int) -> Option<int> {
    if 0 <= at && at + 4 <= s.len() && hex_digit(s[at]) is Some && hex_digit(s[at + 1]) is Some
        && hex_digit(s[at + 2]) is Some && hex_digit(s[at + 3]) is Some {
        Some(
            0x1000 * hex_digit(s[at])->Some_0 + 0x100 * hex_digit(s[at + 1])->Some_0 + 0x10
                * hex_digit(s[at + 2])->Some_0 + hex_digit(s[at + 3])->Some_0,
        )
    } else {
        None
    }
}

proof fn lemma_four_digits(s: Seq<u8>, at: int)
    requires
        0 <= at,
    ensures
        four_digits(s, at) matches Some(n) ==> hex_run(s, at, 4, 0) == Ok::<int, Seq<char>>(n) && 0
            <= n <= 0xffff,
        four_digits(s, at) is None ==> hex_run(s, at, 4, 0) is Err,
{
    reveal_with_fuel(hex_run, 5);
}

/// An escape of four digits stands for that character; two of them, the first in the upper
/// and the second in the lower range of surrogates, stand together for one beyond the first
/// sixty-five thousand. Anything else with a surrogate is refused.
pub proof fn law_escapes_stand_for_characters(s: Seq<u8>, at: int)
    requires
        0 <= at,
    ensures
        four_digits(s, at) is None ==> unicode_escape(s, at) is Err,
        four_digits(s, at) matches Some(first) ==> {
            &&& first < 0xd800 || first > 0xdfff ==> unicode_escape(s, at) == Ok::<
                (int, bool),
                Seq<char>,
            >((first, false))
            &&& 0xdc00 <= first <= 0xdfff ==> unicode_escape(s, at) is Err
            &&& 0xd800 <= first <= 0xdbff ==> if at + 6 <= s.len() && s[at + 4] == 0x5c && s[at + 5]
                == 0x75 && four_digits(s, at + 6) is Some && 0xdc00 <= four_digits(
                s,
                at + 6,
            )->Some_0 <= 0xdfff {
                let second = four_digits(s, at + 6)->Some_0;
                unicode_escape(s, at) == Ok::<(int, bool), Seq<char>>(
                    ((first - 0xd800) * 0x400 + (second - 0xdc00) + 0x10000, true),
                )
            } else {
                unicode_escape(s, at) is Err
            }
        },
{
    lemma_four_digits(s, at);
    lemma_four_digits(s, at + 6);
}

/// The escapes of one letter, and of the three characters that stand for themselves.
pub proof fn law_short_escapes(b: u8)
    ensures
        simple_escape('"' as u8) == Some('"' as u8),
        simple_escape('\\' as u8) == Some('\\' as u8),
        simple_escape('/' as u8) == Some('/' as u8),
        simple_escape('b' as u8) == Some(8u8),
        simple_escape('f' as u8) == Some(12u8),
        simple_escape('n' as u8) == Some('\n' as u8),
        simple_escape('r' as u8) == Some('\r' as u8),
        simple_escape('t' as u8) == Some('\t' as u8),
        b != '"' as u8 && b != '\\' as u8 && b != '/' as u8 && b != 'b' as u8 && b != 'f' as u8
            && b != 'n' as u8 && b != 'r' as u8 && b != 't' as u8 ==> simple_escape(b) is None,
{
}

/// A string ends at its first bare quote; up to there every byte from the blank on stands for
/// itself, but for the backslash, and what is smaller is refused.
pub proof fn law_strings_end_at_a_quote(s: Seq<u8>, at: int, acc: Seq<u8>)
    requires
        0 <= at,
    ensures
        at >= s.len() ==> string_body(s, at, acc) is Err,
        at < s.len() && s[at] == '"' as u8 ==> string_body(s, at, acc) == Ok::<
            (Seq<u8>, nat),
            Seq<char>,
        >((acc, 1)),
        at < s.len() && s[at] < 32 ==> string_body(s, at, acc) is Err,
        at < s.len() && s[at] >= 32 && s[at] != '"' as u8 && s[at] != '\\' as u8 ==> (string_body(
            s,
            at + 1,
            acc.push(s[at]),
        ) matches Ok((bytes, n)) ==> string_body(s, at, acc) == Ok::<(Seq<u8>, nat), Seq<char>>(
            (bytes, n + 1),
        )),
        at + 1 >= s.len() && at < s.len() && s[at] == '\\' as u8 ==> string_body(s, at, acc)
            is Err,
{
    reveal_with_fuel(string_body, 2);
}

/// Nothing may stand behind a value but space.
pub proof fn law_whole_text_is_one_value(s: Seq<u8>, value: ParsedView)
    requires
        parse_json(s) == Ok::<ParsedView, Seq<char>>(value),
    ensures
        exists|n: nat|
            {
                &&& #[trigger] value_at(s, 0, 0) == Ok::<(ParsedView, nat), Seq<char>>((value, n))
                &&& forall|i: int|
                    n <= i < s.len() ==> (#[trigger] s[i] == 0x20 || s[i] == 0x09 || s[i] == 0x0a
                        || s[i] == 0x0d)
            },
{
    let n = value_at(s, 0, 0)->Ok_0.1;
    if n <= s.len() {
        law_spaces_are_passed_over(s, n as int);
    }
}

/// A value that nests deeper than a hundred and twenty-eight levels is refused.
pub proof fn law_nesting_is_limited(s: Seq<u8>, at: int, depth: nat)
    ensures
        depth > 128 ==> value_at(s, at, depth) is Err,
{
}

/// What a value is, is told by its first byte behind space: the words `null`, `true` and
/// `false` are spelled out, a string begins with a quote, a number with a sign or a digit,
/// an array with a bracket and an object with a brace. Nothing else begins a value.
pub proof fn law_value_is_told_by_its_first_byte(s: Seq<u8>, at: int, depth: nat)
    requires
        0 <= at <= s.len(),
        depth <= 128,
    ensures
        ({
            let p = at + space_len(s, at);
            let read = value_at(s, at, depth);
            let null = p + 4 <= s.len() && s[p] == 0x6e && s[p + 1] == 0x75 && s[p + 2] == 0x6c
                && s[p + 3] == 0x6c;
            let yes = p + 4 <= s.len() && s[p] == 0x74 && s[p + 1] == 0x72 && s[p + 2] == 0x75
                && s[p + 3] == 0x65;
            let no = p + 5 <= s.len() && s[p] == 0x66 && s[p + 1] == 0x61 && s[p + 2] == 0x6c
                && s[p + 3] == 0x73 && s[p + 4] == 0x65;
            &&& null <==> read == Ok::<(ParsedView, nat), Seq<char>>(
                (ParsedView::Null, (p + 4 - at) as nat),
            )
            &&& yes <==> read == Ok::<(ParsedView, nat), Seq<char>>(
                (ParsedView::Bool(true), (p + 4 - at) as nat),
            )
            &&& no <==> read == Ok::<(ParsedView, nat), Seq<char>>(
                (ParsedView::Bool(false), (p + 5 - at) as nat),
            )
            &&& read matches Ok((value, n)) ==> p < s.len() && match value {
                ParsedView::Null => null,
                ParsedView::Bool(truth) => truth && yes || !truth && no,
                ParsedView::String(_) => s[p] == 0x22,
                ParsedView::Number(_) => s[p] == 0x2d || 0x30 <= s[p] <= 0x39,
                ParsedView::Array(_) => s[p] == 0x5b,
                ParsedView::Object(_) => s[p] == 0x7b,
            }
        }),
{
    reveal(literal_at);
    let p = at + space_len(s, at);
    let null = seq![0x6eu8, 0x75, 0x6c, 0x6c];
    let yes = seq![0x74u8, 0x72, 0x75, 0x65];
    let no = seq![0x66u8, 0x61, 0x6c, 0x73, 0x65];
    law_spaces_are_passed_over(s, at);
    lemma_spelled(s, p, null);
    lemma_spelled(s, p, yes);
    lemma_spelled(s, p, no);
}

proof fn lemma_spelled(s: Seq<u8>, at: int, word: Seq<u8>)
    requires
        0 <= at,
    ensures
        literal_at(s, at, word) <==> at + word.len() <= s.len() && forall|i: int|
            0 <= i < word.len() ==> s[at + i] == #[trigger] word[i],
{
    reveal(literal_at);
    if at + word.len() <= s.len() {
        let part = s.subrange(at, at + word.len());
        if forall|i: int| 0 <= i < word.len() ==> s[at + i] == #[trigger] word[i] {
            assert(part =~= word);
        }
        if part == word {
            assert forall|i: int| 0 <= i < word.len() implies s[at + i] == #[trigger] word[i] by {
                assert(part[i] == word[i]);
            }
        }
    }
}

/// The items of an array are values one level deeper, each behind the one before it: behind
/// an item stands the closing bracket, or a comma and another item. A comma before the
/// bracket is refused.
pub proof fn law_array_items_stand_between_commas(
    s: Seq<u8>,
    at: int,
    depth: nat,
    acc: Seq<ParsedView>,
)
    requires
        0 <= at <= s.len(),
    ensures
        value_at(s, at, depth) is Err ==> array_items(s, at, depth, acc) is Err,
        value_at(s, at, depth) matches Ok((value, n)) ==> {
            let e = at + n + space_len(s, at + n);
            let read = array_items(s, at, depth, acc);
            let next = array_items(s, e + 1, depth, acc.push(value));
            &&& e < s.len() && s[e] == 0x5d ==> read == Ok::<(Seq<ParsedView>, nat), Seq<char>>(
                (acc.push(value), (e + 1 - at) as nat),
            )
            &&& e < s.len() && s[e] == 0x2c ==> (read is Ok <==> next is Ok) && (next matches Ok(
                more,
            ) ==> read == Ok::<(Seq<ParsedView>, nat), Seq<char>>(
                (more.0, (more.1 + e + 1 - at) as nat),
            ))
            &&& e < s.len() && s[e] != 0x5d && s[e] != 0x2c ==> read is Err
            &&& e >= s.len() ==> read is Err
            &&& e + 1 < s.len() && s[e] == 0x2c && s[e + 1] == 0x5d ==> read is Err
        },
        depth < 128 && at < s.len() && s[at] == 0x5b ==> {
            let first = at + 1 + space_len(s, at + 1);
            let read = value_at(s, at, depth);
            let items = array_items(s, first, depth + 1, Seq::empty());
            &&& first < s.len() && s[first] == 0x5d ==> read == Ok::<
                (ParsedView, nat),
                Seq<char>,
            >((ParsedView::Array(Seq::empty()), (first + 1 - at) as nat))
            &&& !(first < s.len() && s[first] == 0x5d) ==> (read is Ok <==> items is Ok) && (items
                matches Ok(more) ==> read == Ok::<(ParsedView, nat), Seq<char>>(
                (ParsedView::Array(more.0), (more.1 + first - at) as nat),
            ))
        },
{
    if let Ok((value, n)) = value_at(s, at, depth) {
        let e = at + n + space_len(s, at + n);
        if e + 1 < s.len() && s[e] == 0x2c && s[e + 1] == 0x5d {
            assert(space_len(s, e + 1) == 0);
            assert(value_at(s, e + 1, depth) is Err);
            assert(array_items(s, e + 1, depth, acc.push(value)) is Err);
        }
    }
    if at < s.len() && s[at] == 0x5b {
        assert(space_len(s, at) == 0);
        assert(value_at(s, at, depth) == longer(array_at(s, at, depth + 1), 0) || depth > 128);
    }
}

/// The fields of an object are a string, a colon and a value one level deeper, each behind
/// the one before it: behind a field stands the closing brace, or a comma and another field.
pub proof fn law_object_fields_stand_between_commas(
    s: Seq<u8>,
    at: int,
    depth: nat,
    acc: Seq<(Seq<char>, ParsedView)>,
)
    requires
        0 <= at <= s.len(),
    ensures
        field_at(s, at, depth) matches Ok((field, n)) ==> {
            let e = at + n + space_len(s, at + n);
            let read = object_fields(s, at, depth, acc);
            let next = object_fields(s, e + 1, depth, acc.push(field));
            let k = at + space_len(s, at);
            &&& e < s.len() && s[e] == 0x7d ==> read == Ok::<
                (Seq<(Seq<char>, ParsedView)>, nat),
                Seq<char>,
            >((acc.push(field), (e + 1 - at) as nat))
            &&& e < s.len() && s[e] == 0x2c ==> (read is Ok <==> next is Ok) && (next matches Ok(
                more,
            ) ==> read == Ok::<(Seq<(Seq<char>, ParsedView)>, nat), Seq<char>>(
                (more.0, (more.1 + e + 1 - at) as nat),
            ))
            &&& e < s.len() && s[e] != 0x7d && s[e] != 0x2c ==> read is Err
            &&& e >= s.len() ==> read is Err
            &&& string_at(s, k) is Ok && {
                let m = k + string_at(s, k)->Ok_0.1;
                let colon = m + space_len(s, m);
                &&& field.0 == string_at(s, k)->Ok_0.0
                &&& colon < s.len() && s[colon] == 0x3a
                &&& value_at(s, colon + 1, depth) == Ok::<(ParsedView, nat), Seq<char>>(
                    (field.1, (at + n - colon - 1) as nat),
                )
            }
        },
        field_at(s, at, depth) is Err ==> object_fields(s, at, depth, acc) is Err,
        depth < 128 && at < s.len() && s[at] == 0x7b ==> {
            let first = at + 1 + space_len(s, at + 1);
            let read = value_at(s, at, depth);
            let fields = object_fields(s, first, depth + 1, Seq::empty());
            &&& first < s.len() && s[first] == 0x7d ==> read == Ok::<
                (ParsedView, nat),
                Seq<char>,
            >((ParsedView::Object(Seq::empty()), (first + 1 - at) as nat))
            &&& !(first < s.len() && s[first] == 0x7d) ==> (read is Ok <==> fields is Ok) && (
            fields matches Ok(more) ==> read == Ok::<(ParsedView, nat), Seq<char>>(
                (ParsedView::Object(more.0), (more.1 + first - at) as nat),
            ))
        },
{
    if at < s.len() && s[at] == 0x7b {
        assert(space_len(s, at) == 0);
        assert(value_at(s, at, depth) == longer(object_at(s, at, depth + 1), 0) || depth > 128);
    }
}

} // verus!
