//! What is written as JSON is read back as it was.
use crate::json::{compact, compact_fields, compact_items, escaped, escaped_char, quoted, signed_dec, JsonView};
use crate::json_parse::{
    array_items, ascii_text, byte_at, digit_len, field_at, hex_digit, hex_run, is_digit, is_space,
    literal_at, longer, number_len, object_fields, parse_json, simple_escape,
    string_at, string_body, unicode_escape, value_at, ParsedView, MAX_JSON_DEPTH,
};
use crate::text::{dec, digit_char, digits, hex_padded};
use vstd::prelude::*;
use vstd::utf8::{encode_scalar, encode_utf8};

verus! {

/// The bytes `t` stand at `at`.
pub open spec fn stands(s: Seq<u8>, at: int, t: Seq<u8>) -> bool {
    &&& 0 <= at
    &&& at + t.len() <= s.len()
    &&& forall|i: int| 0 <= i < t.len() ==> s[at + i] == #[trigger] t[i]
}

proof fn lemma_stands_parts(s: Seq<u8>, at: int, a: Seq<u8>, b: Seq<u8>)
    requires
        stands(s, at, a + b),
    ensures
        stands(s, at, a),
        stands(s, at + a.len(), b),
{
    let t = a + b;
    assert forall|i: int| 0 <= i < a.len() implies s[at + i] == #[trigger] a[i] by {
        assert(t[i] == a[i]);
    }
    assert forall|i: int| 0 <= i < b.len() implies s[at + a.len() + i] == #[trigger] b[i] by {
        assert(t[a.len() + i] == b[i]);
    }
}

proof fn lemma_encode_joined(a: Seq<char>, b: Seq<char>)
    ensures
        encode_utf8(a + b) == encode_utf8(a) + encode_utf8(b),
    decreases a.len(),
{
    if a.len() == 0 {
        assert(a + b =~= b);
        assert(encode_utf8(a) + encode_utf8(b) =~= encode_utf8(b));
    } else {
        lemma_encode_joined(a.drop_first(), b);
        assert((a + b).drop_first() =~= a.drop_first() + b);
        assert(encode_utf8(a + b) =~= encode_utf8(a) + encode_utf8(b));
    }
}

proof fn lemma_encode_one(c: char)
    ensures
        encode_utf8(seq![c]) == encode_scalar(c as u32),
{
    let s = seq![c];
    reveal_with_fuel(encode_utf8, 2);
    assert(s.drop_first() =~= Seq::empty());
    assert(encode_utf8(s) =~= encode_scalar(c as u32));
}

proof fn lemma_encode_ascii_char(c: char)
    requires
        (c as u32) < 0x80,
    ensures
        encode_utf8(seq![c]) == seq![c as u8],
{
    let s = seq![c];
    assert(vstd::utf8::is_ascii_chars(s));
    vstd::utf8::is_ascii_chars_encode_utf8(s);
    assert(encode_utf8(s)[0] == s[0] as u8);
    assert(encode_utf8(s) =~= seq![c as u8]);
}

// ---------------------------------------------------------------------------
// Strings
// ---------------------------------------------------------------------------

proof fn lemma_escaped_first(s: Seq<char>)
    requires
        s.len() > 0,
    ensures
        escaped(s) == escaped_char(s[0]) + escaped(s.drop_first()),
    decreases s.len(),
{
    if s.len() == 1 {
        assert(s.drop_last() =~= Seq::empty());
        assert(s.drop_first() =~= Seq::empty());
        assert(escaped(s) =~= escaped_char(s[0]) + escaped(s.drop_first()));
    } else {
        let front = s.drop_last();
        lemma_escaped_first(front);
        assert(front.drop_first() =~= s.drop_first().drop_last());
        assert(s.drop_first().last() == s.last());
        assert(escaped(s) =~= escaped_char(s[0]) + escaped(s.drop_first()));
    }
}

/// `b` stands for itself inside a JSON string.
spec fn is_plain(b: u8) -> bool {
    b >= 0x20 && b != 0x22 && b != 0x5c
}

proof fn lemma_plain_run(s: Seq<u8>, at: int, run: Seq<u8>, acc: Seq<u8>)
    requires
        stands(s, at, run),
        forall|i: int| 0 <= i < run.len() ==> is_plain(#[trigger] run[i]),
    ensures
        string_body(s, at, acc) == longer(
            string_body(s, at + run.len(), acc + run),
            run.len(),
        ),
    decreases run.len(),
{
    if run.len() == 0 {
        assert(acc + run =~= acc);
    } else {
        let rest = run.drop_first();
        assert(s[at] == run[0]);
        assert(is_plain(run[0]));
        assert forall|i: int| 0 <= i < rest.len() implies is_plain(#[trigger] rest[i]) && s[at + 1
            + i] == rest[i] by {
            assert(rest[i] == run[i + 1]);
        }
        lemma_plain_run(s, at + 1, rest, acc.push(s[at]));
        assert(acc.push(s[at]) + rest =~= acc + run);
    }
}

proof fn lemma_marked(x: u8)
    ensures
        (0x80u8 | x) >= 0x80,
        (0xc0u8 | x) >= 0x80,
        (0xe0u8 | x) >= 0x80,
        (0xf0u8 | x) >= 0x80,
{
    assert((0x80u8 | x) >= 0x80 && (0xc0u8 | x) >= 0x80 && (0xe0u8 | x) >= 0x80 && (0xf0u8 | x)
        >= 0x80) by (bit_vector);
}

proof fn lemma_scalar_bytes_are_plain(c: char)
    requires
        (c as u32) >= 0x20,
        c != '"',
        c != '\\',
    ensures
        forall|i: int|
            0 <= i < encode_scalar(c as u32).len() ==> is_plain(
                #[trigger] encode_scalar(c as u32)[i],
            ),
{
    let v = c as u32;
    vstd::utf8::char_is_scalar(c);
    assert(v <= 0x7f ==> (v & 0x7f) as u8 == v) by (bit_vector);
    lemma_marked((v & 0x3f) as u8);
    lemma_marked(((v >> 6) & 0x1f) as u8);
    lemma_marked(((v >> 6) & 0x3f) as u8);
    lemma_marked(((v >> 12) & 0x0f) as u8);
    lemma_marked(((v >> 12) & 0x3f) as u8);
    lemma_marked(((v >> 18) & 0x7) as u8);
}

proof fn lemma_encode_ascii(t: Seq<char>)
    requires
        vstd::utf8::is_ascii_chars(t),
    ensures
        encode_utf8(t).len() == t.len(),
        forall|i: int| 0 <= i < t.len() ==> #[trigger] encode_utf8(t)[i] == t[i] as u8,
{
    vstd::utf8::is_ascii_chars_encode_utf8(t);
}

/// The one-letter escape of `c` is read as `c`.
proof fn lemma_letter_step(s: Seq<u8>, at: int, c: char, letter: char, acc: Seq<u8>)
    requires
        (c as u32) < 0x80,
        (letter as u32) < 0x80,
        letter != 'u',
        simple_escape(letter as u8) == Some(c as u8),
        stands(s, at, encode_utf8(seq!['\\', letter])),
    ensures
        encode_utf8(seq!['\\', letter]).len() == 2,
        string_body(s, at, acc) == longer(string_body(s, at + 2, acc + encode_scalar(c as u32)), 2),
{
    let t = seq!['\\', letter];
    lemma_encode_ascii(t);
    let bytes = encode_utf8(t);
    assert(bytes[0] == t[0] as u8);
    assert(bytes[1] == t[1] as u8);
    assert(s[at + 0] == bytes[0]);
    assert(s[at + 1] == bytes[1]);
    lemma_encode_one(c);
    lemma_encode_ascii_char(c);
    assert(acc + encode_scalar(c as u32) =~= acc.push(c as u8));
}

proof fn lemma_control_step(s: Seq<u8>, at: int, c: char, acc: Seq<u8>)
    requires
        (c as u32) < 0x20,
        stands(s, at, encode_utf8("\\u"@ + hex_padded(c as nat, 4))),
    ensures
        encode_utf8("\\u"@ + hex_padded(c as nat, 4)).len() == 6,
        string_body(s, at, acc) == longer(string_body(s, at + 6, acc + encode_scalar(c as u32)), 6),
{
    reveal_strlit("\\u");
    let n = c as nat;
    let t = "\\u"@ + hex_padded(n, 4);
    reveal_with_fuel(hex_padded, 5);
    let high = digit_char(n / 16 % 16);
    let low = digit_char(n % 16);
    assert(n / 16 / 16 == 0);
    assert(t =~= seq!['\\', 'u', '0', '0', high, low]);
    lemma_encode_ascii(t);
    let bytes = encode_utf8(t);
    assert(bytes[0] == t[0] as u8 && bytes[1] == t[1] as u8 && bytes[2] == t[2] as u8 && bytes[3]
        == t[3] as u8 && bytes[4] == t[4] as u8 && bytes[5] == t[5] as u8);
    assert(s[at + 0] == bytes[0] && s[at + 1] == bytes[1] && s[at + 2] == bytes[2] && s[at + 3]
        == bytes[3] && s[at + 4] == bytes[4] && s[at + 5] == bytes[5]);
    reveal_with_fuel(hex_run, 5);
    assert(hex_digit(s[at + 4]) == Some((n / 16) as int));
    assert(hex_digit(s[at + 5]) == Some((n % 16) as int));
    assert(hex_run(s, at + 2, 4, 0) == Ok::<int, Seq<char>>(n as int));
    assert(unicode_escape(s, at + 2) == Ok::<(int, bool), Seq<char>>((n as int, false)));
    assert(n as int as u32 == c as u32);
}

/// A character as it is written inside a JSON string is read as that character.
proof fn lemma_char_step(s: Seq<u8>, at: int, c: char, acc: Seq<u8>)
    requires
        stands(s, at, encode_utf8(escaped_char(c))),
    ensures
        string_body(s, at, acc) == longer(
            string_body(
                s,
                at + encode_utf8(escaped_char(c)).len(),
                acc + encode_scalar(c as u32),
            ),
            encode_utf8(escaped_char(c)).len(),
        ),
{
    reveal_strlit("\\\"");
    reveal_strlit("\\\\");
    reveal_strlit("\\n");
    reveal_strlit("\\r");
    reveal_strlit("\\t");
    if c == '"' {
        assert("\\\""@ =~= seq!['\\', '"']);
        lemma_letter_step(s, at, c, '"', acc);
    } else if c == '\\' {
        assert("\\\\"@ =~= seq!['\\', '\\']);
        lemma_letter_step(s, at, c, '\\', acc);
    } else if c == '\n' {
        assert("\\n"@ =~= seq!['\\', 'n']);
        lemma_letter_step(s, at, c, 'n', acc);
    } else if c == '\r' {
        assert("\\r"@ =~= seq!['\\', 'r']);
        lemma_letter_step(s, at, c, 'r', acc);
    } else if c == '\t' {
        assert("\\t"@ =~= seq!['\\', 't']);
        lemma_letter_step(s, at, c, 't', acc);
    } else if (c as u32) < 0x20 {
        lemma_control_step(s, at, c, acc);
    } else {
        lemma_encode_one(c);
        lemma_scalar_bytes_are_plain(c);
        lemma_plain_run(s, at, encode_scalar(c as u32), acc);
    }
}

/// The body of a JSON string is read as the text that it was written from.
proof fn lemma_body(s: Seq<u8>, at: int, text: Seq<char>, acc: Seq<u8>)
    requires
        stands(s, at, encode_utf8(escaped(text)) + seq![0x22u8]),
    ensures
        string_body(s, at, acc) == Ok::<(Seq<u8>, nat), Seq<char>>(
            (acc + encode_utf8(text), encode_utf8(escaped(text)).len() + 1),
        ),
    decreases text.len(),
{
    let quote = seq![0x22u8];
    lemma_stands_parts(s, at, encode_utf8(escaped(text)), quote);
    if text.len() == 0 {
        assert(encode_utf8(escaped(text)).len() == 0);
        assert(s[at + 0] == quote[0]);
        assert(acc + encode_utf8(text) =~= acc);
    } else {
        let rest = text.drop_first();
        let first = encode_utf8(escaped_char(text[0]));
        let tail = encode_utf8(escaped(rest));
        lemma_escaped_first(text);
        lemma_encode_joined(escaped_char(text[0]), escaped(rest));
        assert(encode_utf8(escaped(text)) + quote =~= first + (tail + quote));
        lemma_stands_parts(s, at, first, tail + quote);
        lemma_char_step(s, at, text[0], acc);
        let read = acc + encode_scalar(text[0] as u32);
        lemma_body(s, at + first.len(), rest, read);
        assert(read + encode_utf8(rest) =~= acc + encode_utf8(text));
    }
}

/// A JSON string is read as the text that it was written from.
proof fn lemma_string(s: Seq<u8>, at: int, text: Seq<char>)
    requires
        stands(s, at, encode_utf8(quoted(text))),
    ensures
        string_at(s, at) == Ok::<(Seq<char>, nat), Seq<char>>(
            (text, encode_utf8(quoted(text)).len()),
        ),
        byte_at(s, at, 0x22),
{
    reveal(string_at);
    reveal_strlit("\"");
    let quote = seq![0x22u8];
    assert("\""@ =~= seq!['"']);
    lemma_encode_ascii_char('"');
    lemma_encode_joined("\""@ + escaped(text), "\""@);
    lemma_encode_joined("\""@, escaped(text));
    let body = encode_utf8(escaped(text));
    assert(encode_utf8(quoted(text)) =~= quote + (body + quote));
    lemma_stands_parts(s, at, quote, body + quote);
    assert(s[at + 0] == quote[0]);
    lemma_body(s, at + 1, text, Seq::empty());
    assert(Seq::<u8>::empty() + encode_utf8(text) =~= encode_utf8(text));
    vstd::utf8::encode_utf8_valid_utf8(text);
    vstd::utf8::encode_utf8_decode_utf8(text);
}

// ---------------------------------------------------------------------------
// Numbers
// ---------------------------------------------------------------------------

/// A value can end at `at`: the text does, or what is around the value goes on.
spec fn ends(s: Seq<u8>, at: int) -> bool {
    0 <= at <= s.len() && (at < s.len() ==> s[at] == 0x2c || s[at] == 0x5d || s[at] == 0x7d)
}

proof fn lemma_dec_shape(n: nat)
    ensures
        dec(n).len() > 0,
        forall|i: int| 0 <= i < dec(n).len() ==> '0' <= #[trigger] dec(n)[i] <= '9',
        n > 0 ==> dec(n)[0] != '0',
        n == 0 ==> dec(n) == seq!['0'],
    decreases n,
{
    if n >= 10 {
        let front = digits(n / 10, 10);
        lemma_dec_shape(n / 10);
        assert(dec(n) == front.push(digit_char(n % 10)));
    }
}

proof fn lemma_digit_run(s: Seq<u8>, at: int, run: Seq<u8>)
    requires
        stands(s, at, run),
        forall|i: int| 0 <= i < run.len() ==> is_digit(#[trigger] run[i]),
        ends(s, at + run.len()),
    ensures
        digit_len(s, at) == run.len(),
    decreases run.len(),
{
    if run.len() > 0 {
        let rest = run.drop_first();
        assert(s[at + 0] == run[0]);
        assert forall|i: int| 0 <= i < rest.len() implies is_digit(#[trigger] rest[i]) && s[at + 1
            + i] == rest[i] by {
            assert(rest[i] == run[i + 1]);
        }
        lemma_digit_run(s, at + 1, rest);
    }
}

/// A number is read as the text that it was written as.
proof fn lemma_number(s: Seq<u8>, at: int, n: int)
    requires
        stands(s, at, encode_utf8(signed_dec(n))),
        ends(s, at + encode_utf8(signed_dec(n)).len()),
    ensures
        encode_utf8(signed_dec(n)).len() > 0,
        s[at] == 0x2d || is_digit(s[at]),
        number_len(s, at) == Ok::<nat, Seq<char>>(encode_utf8(signed_dec(n)).len()),
        ascii_text(s, at, encode_utf8(signed_dec(n)).len()) == signed_dec(n),
{
    reveal(number_len);
    reveal_strlit("-");
    let sign: nat = if n < 0 {
        1
    } else {
        0
    };
    let size = if n < 0 {
        (-n) as nat
    } else {
        n as nat
    };
    let t = signed_dec(n);
    let number = dec(size);
    lemma_dec_shape(size);
    assert(t.len() == sign + number.len());
    assert forall|i: int| 0 <= i < number.len() implies t[sign + i] == #[trigger] number[i] by {}
    assert forall|i: int| 0 <= i < t.len() implies '\0' <= #[trigger] t[i] <= '\u{7f}' by {
        if i >= sign {
            assert(t[i] == number[i - sign]);
        }
    }
    lemma_encode_ascii(t);
    let bytes = encode_utf8(t);
    assert forall|i: int| 0 <= i < t.len() implies s[at + i] == #[trigger] t[i] as u8 by {
        assert(bytes[i] == t[i] as u8);
    }
    let run = Seq::new(number.len(), |i: int| number[i] as u8);
    let first = at + sign;
    assert forall|i: int| 0 <= i < run.len() implies is_digit(#[trigger] run[i]) && s[first + i]
        == run[i] by {
        assert(t[sign + i] == number[i]);
        assert(s[at + (sign + i)] == t[sign + i] as u8);
    }
    lemma_digit_run(s, first, run);
    assert(s[first + 0] == run[0]);
    if n < 0 {
        assert(s[at + 0] == t[0] as u8);
    }
    if size > 0 {
        assert(run[0] != 0x30);
    } else {
        assert(run.len() == 1);
    }
    assert(ascii_text(s, at, t.len()) =~= t) by {
        assert forall|i: int| 0 <= i < t.len() implies s[at + i] as char == #[trigger] t[i] by {
            assert(t[i] as u8 as char == t[i]);
        }
    }
}

// ---------------------------------------------------------------------------
// Values
// ---------------------------------------------------------------------------

/// What a value is read as: numbers keep their text.
pub open spec fn read_back(value: JsonView) -> ParsedView
    decreases value,
{
    match value {
        JsonView::Null => ParsedView::Null,
        JsonView::Bool(b) => ParsedView::Bool(b),
        JsonView::UInt(n) => ParsedView::Number(dec(n as nat)),
        JsonView::Int(n) => ParsedView::Number(signed_dec(n as int)),
        JsonView::Str(text) => ParsedView::String(text),
        JsonView::Array(values) => ParsedView::Array(
            Seq::new(
                values.len(),
                |i: int|
                    if 0 <= i < values.len() {
                        read_back(values[i])
                    } else {
                        ParsedView::Null
                    },
            ),
        ),
        JsonView::Object(fields) => ParsedView::Object(
            Seq::new(
                fields.len(),
                |i: int|
                    if 0 <= i < fields.len() {
                        (fields[i].0, read_back(fields[i].1))
                    } else {
                        (Seq::empty(), ParsedView::Null)
                    },
            ),
        ),
    }
}

/// Arrays and objects nest at most `room` deep in a value, but for empty ones in
/// the innermost.
pub open spec fn nests_within(value: JsonView, room: nat) -> bool
    decreases value,
{
    match value {
        JsonView::Array(values) => forall|i: int|
            0 <= i < values.len() ==> room > 0 && nests_within(
                #[trigger] values[i],
                (room - 1) as nat,
            ),
        JsonView::Object(fields) => forall|i: int|
            0 <= i < fields.len() ==> room > 0 && nests_within(
                (#[trigger] fields[i]).1,
                (room - 1) as nat,
            ),
        _ => true,
    }
}

/// The compact texts of the values from `k` on, with commas between them.
spec fn items_from(values: Seq<JsonView>, k: int) -> Seq<char>
    decreases values.len() - k,
{
    if !(0 <= k < values.len()) {
        Seq::empty()
    } else if k + 1 == values.len() {
        compact(values[k])
    } else {
        compact(values[k]) + (","@ + items_from(values, k + 1))
    }
}

proof fn lemma_items_split(values: Seq<JsonView>, k: int)
    requires
        0 < k < values.len(),
    ensures
        compact_items(values, values.len()) == compact_items(values, k as nat) + (","@
            + items_from(values, k)),
    decreases values.len() - k,
{
    if k + 1 < values.len() {
        lemma_items_split(values, k + 1);
    }
    assert(compact_items(values, (k + 1) as nat) == compact_items(values, k as nat) + ","@
        + compact(values[k]));
    assert(compact_items(values, values.len()) =~= compact_items(values, k as nat) + (","@
        + items_from(values, k)));
}

proof fn lemma_items_whole(values: Seq<JsonView>)
    ensures
        compact_items(values, values.len()) == items_from(values, 0),
{
    if values.len() > 1 {
        lemma_items_split(values, 1);
    }
}

/// The compact text of a field.
spec fn field_text(field: (Seq<char>, JsonView)) -> Seq<char> {
    quoted(field.0) + ":"@ + compact(field.1)
}

/// The compact texts of the fields from `k` on, with commas between them.
spec fn fields_from(fields: Seq<(Seq<char>, JsonView)>, k: int) -> Seq<char>
    decreases fields.len() - k,
{
    if !(0 <= k < fields.len()) {
        Seq::empty()
    } else if k + 1 == fields.len() {
        field_text(fields[k])
    } else {
        field_text(fields[k]) + (","@ + fields_from(fields, k + 1))
    }
}

proof fn lemma_fields_split(fields: Seq<(Seq<char>, JsonView)>, k: int)
    requires
        0 < k < fields.len(),
    ensures
        compact_fields(fields, fields.len()) == compact_fields(fields, k as nat) + (","@
            + fields_from(fields, k)),
    decreases fields.len() - k,
{
    if k + 1 < fields.len() {
        lemma_fields_split(fields, k + 1);
    }
    assert(compact_fields(fields, (k + 1) as nat) == compact_fields(fields, k as nat) + ","@
        + field_text(fields[k]));
    assert(compact_fields(fields, fields.len()) =~= compact_fields(fields, k as nat) + (","@
        + fields_from(fields, k)));
}

proof fn lemma_fields_whole(fields: Seq<(Seq<char>, JsonView)>)
    ensures
        compact_fields(fields, fields.len()) == fields_from(fields, 0),
{
    if fields.len() > 1 {
        lemma_fields_split(fields, 1);
    }
}

proof fn lemma_punctuation()
    ensures
        encode_utf8(","@) == seq![0x2cu8],
        encode_utf8(":"@) == seq![0x3au8],
        encode_utf8("["@) == seq![0x5bu8],
        encode_utf8("]"@) == seq![0x5du8],
        encode_utf8("{"@) == seq![0x7bu8],
        encode_utf8("}"@) == seq![0x7du8],
{
    reveal_strlit(",");
    reveal_strlit(":");
    reveal_strlit("[");
    reveal_strlit("]");
    reveal_strlit("{");
    reveal_strlit("}");
    assert(","@ =~= seq![',']);
    assert(":"@ =~= seq![':']);
    assert("["@ =~= seq!['[']);
    assert("]"@ =~= seq![']']);
    assert("{"@ =~= seq!['{']);
    assert("}"@ =~= seq!['}']);
    lemma_encode_ascii_char(',');
    lemma_encode_ascii_char(':');
    lemma_encode_ascii_char('[');
    lemma_encode_ascii_char(']');
    lemma_encode_ascii_char('{');
    lemma_encode_ascii_char('}');
}

proof fn lemma_words()
    ensures
        encode_utf8("null"@) == seq![0x6eu8, 0x75, 0x6c, 0x6c],
        encode_utf8("true"@) == seq![0x74u8, 0x72, 0x75, 0x65],
        encode_utf8("false"@) == seq![0x66u8, 0x61, 0x6c, 0x73, 0x65],
{
    reveal_strlit("null");
    reveal_strlit("true");
    reveal_strlit("false");
    lemma_encode_ascii("null"@);
    lemma_encode_ascii("true"@);
    lemma_encode_ascii("false"@);
    assert(encode_utf8("null"@) =~= seq![0x6eu8, 0x75, 0x6c, 0x6c]);
    assert(encode_utf8("true"@) =~= seq![0x74u8, 0x72, 0x75, 0x65]);
    assert(encode_utf8("false"@) =~= seq![0x66u8, 0x61, 0x6c, 0x73, 0x65]);
}

proof fn lemma_literal(s: Seq<u8>, at: int, word: Seq<u8>)
    requires
        stands(s, at, word),
    ensures
        literal_at(s, at, word),
{
    reveal(literal_at);
    assert(s.subrange(at, at + word.len()) =~= word);
}

/// `value` is read back from where it stands, `depth` deep.
spec fn is_read(s: Seq<u8>, at: int, value: JsonView, depth: nat) -> bool {
    &&& encode_utf8(compact(value)).len() > 0
    &&& !is_space(s[at])
    &&& value_at(s, at, depth) == Ok::<(ParsedView, nat), Seq<char>>(
        (read_back(value), encode_utf8(compact(value)).len()),
    )
}

proof fn lemma_value(s: Seq<u8>, at: int, value: JsonView, depth: nat)
    requires
        stands(s, at, encode_utf8(compact(value))),
        ends(s, at + encode_utf8(compact(value)).len()),
        depth <= MAX_JSON_DEPTH,
        nests_within(value, (MAX_JSON_DEPTH - depth) as nat),
    ensures
        is_read(s, at, value, depth),
    decreases value, 0nat,
{
    let bytes = encode_utf8(compact(value));
    lemma_words();
    match value {
        JsonView::Null => {
            lemma_literal(s, at, bytes);
            assert(s[at + 0] == bytes[0]);
        },
        JsonView::Bool(b) => {
            lemma_literal(s, at, bytes);
            assert(s[at + 0] == bytes[0]);
        },
        JsonView::UInt(n) => {
            assert(signed_dec(n as int) == dec(n as nat));
            lemma_number(s, at, n as int);
        },
        JsonView::Int(n) => {
            lemma_number(s, at, n as int);
        },
        JsonView::Str(text) => {
            lemma_string(s, at, text);
            reveal(string_at);
        },
        JsonView::Array(values) => {
            let inner = encode_utf8(items_from(values, 0));
            lemma_items_whole(values);
            lemma_punctuation();
            lemma_encode_joined("["@ + items_from(values, 0), "]"@);
            lemma_encode_joined("["@, items_from(values, 0));
            assert(bytes =~= seq![0x5bu8] + (inner + seq![0x5du8]));
            lemma_stands_parts(s, at, seq![0x5bu8], inner + seq![0x5du8]);
            lemma_stands_parts(s, at + 1, inner, seq![0x5du8]);
            assert(s[at + 0] == seq![0x5bu8][0]);
            let wanted = read_back(value)->Array_0;
            if values.len() == 0 {
                assert(inner.len() == 0);
                assert(s[at + 1 + 0] == seq![0x5du8][0]);
                assert(wanted =~= Seq::empty());
            } else {
                assert(nests_within(values[0], (MAX_JSON_DEPTH - depth - 1) as nat));
                lemma_items(s, at + 1, values, 0, depth + 1, Seq::empty());
                assert(Seq::<ParsedView>::empty() + items_read(values, 0) =~= wanted);
                assert(!byte_at(s, at + 1, 0x5d));
            }
        },
        JsonView::Object(fields) => {
            let inner = encode_utf8(fields_from(fields, 0));
            lemma_fields_whole(fields);
            lemma_punctuation();
            lemma_encode_joined("{"@ + fields_from(fields, 0), "}"@);
            lemma_encode_joined("{"@, fields_from(fields, 0));
            assert(bytes =~= seq![0x7bu8] + (inner + seq![0x7du8]));
            lemma_stands_parts(s, at, seq![0x7bu8], inner + seq![0x7du8]);
            lemma_stands_parts(s, at + 1, inner, seq![0x7du8]);
            assert(s[at + 0] == seq![0x7bu8][0]);
            let wanted = read_back(value)->Object_0;
            if fields.len() == 0 {
                assert(inner.len() == 0);
                assert(s[at + 1 + 0] == seq![0x7du8][0]);
                assert(wanted =~= Seq::empty());
            } else {
                assert(nests_within(fields[0].1, (MAX_JSON_DEPTH - depth - 1) as nat));
                lemma_fields(s, at + 1, fields, 0, depth + 1, Seq::empty());
                assert(Seq::<(Seq<char>, ParsedView)>::empty() + fields_read(fields, 0) =~= wanted);
            }
        },
    }
}

/// What the values from `k` on are read as.
spec fn items_read(values: Seq<JsonView>, k: int) -> Seq<ParsedView> {
    Seq::new((values.len() - k) as nat, |i: int| read_back(values[k + i]))
}

/// What the fields from `k` on are read as.
spec fn fields_read(fields: Seq<(Seq<char>, JsonView)>, k: int) -> Seq<(Seq<char>, ParsedView)> {
    Seq::new(
        (fields.len() - k) as nat,
        |i: int| (fields[k + i].0, read_back(fields[k + i].1)),
    )
}

proof fn lemma_items(
    s: Seq<u8>,
    at: int,
    values: Seq<JsonView>,
    k: int,
    depth: nat,
    acc: Seq<ParsedView>,
)
    requires
        0 <= k < values.len(),
        stands(s, at, encode_utf8(items_from(values, k)) + seq![0x5du8]),
        depth <= MAX_JSON_DEPTH,
        forall|i: int|
            0 <= i < values.len() ==> nests_within(
                #[trigger] values[i],
                (MAX_JSON_DEPTH - depth) as nat,
            ),
    ensures
        !is_space(s[at]),
        s[at] != 0x5d,
        array_items(s, at, depth, acc) == Ok::<(Seq<ParsedView>, nat), Seq<char>>(
            (acc + items_read(values, k), encode_utf8(items_from(values, k)).len() + 1),
        ),
    decreases values, values.len() - k,
{
    let close = seq![0x5du8];
    let all = encode_utf8(items_from(values, k));
    let item = encode_utf8(compact(values[k]));
    let value = read_back(values[k]);
    lemma_punctuation();
    lemma_stands_parts(s, at, all, close);
    if k + 1 == values.len() {
        assert(s[at + all.len() + 0] == close[0]);
        lemma_value(s, at, values[k], depth);
        assert(acc.push(value) =~= acc + items_read(values, k));
    } else {
        let comma = seq![0x2cu8];
        let rest = encode_utf8(items_from(values, k + 1));
        lemma_encode_joined(compact(values[k]), ","@ + items_from(values, k + 1));
        lemma_encode_joined(","@, items_from(values, k + 1));
        assert(all + close =~= item + (comma + (rest + close)));
        lemma_stands_parts(s, at, item, comma + (rest + close));
        lemma_stands_parts(s, at + item.len(), comma, rest + close);
        assert(s[at + item.len() + 0] == comma[0]);
        lemma_value(s, at, values[k], depth);
        lemma_items(s, at + item.len() + 1, values, k + 1, depth, acc.push(value));
        assert(acc.push(value) + items_read(values, k + 1) =~= acc + items_read(values, k));
    }
    lemma_value_does_not_close(s, at, values[k], depth);
}

/// No value begins like the end of an array.
proof fn lemma_value_does_not_close(s: Seq<u8>, at: int, value: JsonView, depth: nat)
    requires
        0 <= at < s.len(),
        is_read(s, at, value, depth),
    ensures
        s[at] != 0x5d,
{
}

proof fn lemma_field(s: Seq<u8>, at: int, field: (Seq<char>, JsonView), depth: nat)
    requires
        stands(s, at, encode_utf8(field_text(field))),
        ends(s, at + encode_utf8(field_text(field)).len()),
        depth <= MAX_JSON_DEPTH,
        nests_within(field.1, (MAX_JSON_DEPTH - depth) as nat),
    ensures
        byte_at(s, at, 0x22),
        field_at(s, at, depth) == Ok::<((Seq<char>, ParsedView), nat), Seq<char>>(
            ((field.0, read_back(field.1)), encode_utf8(field_text(field)).len()),
        ),
    decreases field.1, 1nat,
{
    let key = encode_utf8(quoted(field.0));
    let colon = seq![0x3au8];
    let value = encode_utf8(compact(field.1));
    lemma_punctuation();
    lemma_encode_joined(quoted(field.0) + ":"@, compact(field.1));
    lemma_encode_joined(quoted(field.0), ":"@);
    assert(encode_utf8(field_text(field)) =~= key + (colon + value));
    lemma_stands_parts(s, at, key, colon + value);
    lemma_stands_parts(s, at + key.len(), colon, value);
    assert(s[at + key.len() + 0] == colon[0]);
    lemma_string(s, at, field.0);
    lemma_value(s, at + key.len() + 1, field.1, depth);
}

proof fn lemma_fields(
    s: Seq<u8>,
    at: int,
    fields: Seq<(Seq<char>, JsonView)>,
    k: int,
    depth: nat,
    acc: Seq<(Seq<char>, ParsedView)>,
)
    requires
        0 <= k < fields.len(),
        stands(s, at, encode_utf8(fields_from(fields, k)) + seq![0x7du8]),
        depth <= MAX_JSON_DEPTH,
        forall|i: int|
            0 <= i < fields.len() ==> nests_within(
                (#[trigger] fields[i]).1,
                (MAX_JSON_DEPTH - depth) as nat,
            ),
    ensures
        byte_at(s, at, 0x22),
        object_fields(s, at, depth, acc) == Ok::<(Seq<(Seq<char>, ParsedView)>, nat), Seq<char>>(
            (acc + fields_read(fields, k), encode_utf8(fields_from(fields, k)).len() + 1),
        ),
    decreases fields, fields.len() - k,
{
    let close = seq![0x7du8];
    let all = encode_utf8(fields_from(fields, k));
    let one = encode_utf8(field_text(fields[k]));
    let field = (fields[k].0, read_back(fields[k].1));
    lemma_punctuation();
    lemma_stands_parts(s, at, all, close);
    if k + 1 == fields.len() {
        assert(s[at + all.len() + 0] == close[0]);
        lemma_field(s, at, fields[k], depth);
        assert(acc.push(field) =~= acc + fields_read(fields, k));
    } else {
        let comma = seq![0x2cu8];
        let rest = encode_utf8(fields_from(fields, k + 1));
        lemma_encode_joined(field_text(fields[k]), ","@ + fields_from(fields, k + 1));
        lemma_encode_joined(","@, fields_from(fields, k + 1));
        assert(all + close =~= one + (comma + (rest + close)));
        lemma_stands_parts(s, at, one, comma + (rest + close));
        lemma_stands_parts(s, at + one.len(), comma, rest + close);
        assert(s[at + one.len() + 0] == comma[0]);
        lemma_field(s, at, fields[k], depth);
        lemma_fields(s, at + one.len() + 1, fields, k + 1, depth, acc.push(field));
        assert(acc.push(field) + fields_read(fields, k + 1) =~= acc + fields_read(fields, k));
    }
}

/// What is written as JSON is read back as it was: every text character for
/// character, every number digit for digit, and all fields in their order.
pub proof fn law_written_json_is_read_back(value: JsonView)
    requires
        nests_within(value, MAX_JSON_DEPTH as nat),
    ensures
        parse_json(encode_utf8(compact(value))) == Ok::<ParsedView, Seq<char>>(read_back(value)),
{
    let s = encode_utf8(compact(value));
    assert(stands(s, 0, s));
    lemma_value(s, 0, value, 0);
}

} // verus!
