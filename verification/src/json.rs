//! JSON values and their compact text.
use crate::text::{
    chars_of, dec, dec_text, hex_padded, hex_padded_text, hex_prefixed, hex_text, opt_text, push_dec,
};
use vstd::prelude::*;

verus! {

/// The version of every JSON record that is written.
pub const SCHEMA_VERSION: u32 = 1;

/// A JSON value. Object fields keep their order.
#[derive(Debug)]
pub enum Json {
    Null,
    Bool(bool),
    UInt(u64),
    Int(i64),
    Str(String),
    Array(Vec<Json>),
    Object(Vec<(String, Json)>),
}

/// The mathematical content of a [`Json`].
pub enum JsonView {
    Null,
    Bool(bool),
    UInt(u64),
    Int(i64),
    Str(Seq<char>),
    Array(Seq<JsonView>),
    Object(Seq<(Seq<char>, JsonView)>),
}

impl View for Json {
    type V = JsonView;

    open spec fn view(&self) -> JsonView
        decreases self,
    {
        match self {
            Json::Null => JsonView::Null,
            Json::Bool(value) => JsonView::Bool(*value),
            Json::UInt(value) => JsonView::UInt(*value),
            Json::Int(value) => JsonView::Int(*value),
            Json::Str(text) => JsonView::Str(text@),
            Json::Array(values) => JsonView::Array(
                Seq::new(
                    values@.len(),
                    |i: int|
                        if 0 <= i < values@.len() {
                            values@[i].view()
                        } else {
                            JsonView::Null
                        },
                ),
            ),
            Json::Object(fields) => JsonView::Object(
                Seq::new(
                    fields@.len(),
                    |i: int|
                        if 0 <= i < fields@.len() {
                            (fields@[i].0@, fields@[i].1.view())
                        } else {
                            (Seq::empty(), JsonView::Null)
                        },
                ),
            ),
        }
    }
}

/// The views of a list of values.
pub open spec fn json_values(values: Seq<Json>) -> Seq<JsonView> {
    Seq::new(values.len(), |i: int| values[i]@)
}

/// The views of a list of fields.
pub open spec fn json_fields(fields: Seq<(String, Json)>) -> Seq<(Seq<char>, JsonView)> {
    Seq::new(fields.len(), |i: int| (fields[i].0@, fields[i].1@))
}

proof fn lemma_array_view(values: Vec<Json>)
    ensures
        Json::Array(values)@ == JsonView::Array(json_values(values@)),
{
    reveal_with_fuel(<Json as View>::view, 2);
    let seen = Json::Array(values)@->Array_0;
    assert(seen =~= json_values(values@));
}

proof fn lemma_object_view(fields: Vec<(String, Json)>)
    ensures
        Json::Object(fields)@ == JsonView::Object(json_fields(fields@)),
{
    reveal_with_fuel(<Json as View>::view, 2);
    let seen = Json::Object(fields)@->Object_0;
    assert forall|i: int| 0 <= i < fields@.len() implies seen[i] == json_fields(fields@)[i] by {
        assert(seen[i].1 == fields@[i].1@);
    }
    assert(seen =~= json_fields(fields@));
}

// ---------------------------------------------------------------------------
// Building
// ---------------------------------------------------------------------------

/// `fields` with one more at the end.
pub open spec fn with(
    fields: Seq<(Seq<char>, JsonView)>,
    key: Seq<char>,
    value: JsonView,
) -> Seq<(Seq<char>, JsonView)> {
    fields.push((key, value))
}

/// One of `fields` is `key`, and it holds `value`.
#[verifier::opaque]
pub open spec fn says(
    fields: Seq<(Seq<char>, JsonView)>,
    key: Seq<char>,
    value: JsonView,
) -> bool {
    exists|i: int| 0 <= i < fields.len() && #[trigger] fields[i] == (key, value)
}

/// A field that is added is found under its key, all others stay, and there is one more.
pub proof fn law_added_field_is_found(
    fields: Seq<(Seq<char>, JsonView)>,
    key: Seq<char>,
    value: JsonView,
) -> (more: Seq<(Seq<char>, JsonView)>)
    ensures
        more == with(fields, key, value),
        says(more, key, value),
        more.len() == fields.len() + 1,
        forall|k: Seq<char>, v: JsonView| #[trigger] says(fields, k, v) ==> says(more, k, v),
{
    reveal(says);
    let more = with(fields, key, value);
    assert(more[fields.len() as int] == (key, value));
    assert forall|k: Seq<char>, v: JsonView| #[trigger] says(fields, k, v) implies says(
        more,
        k,
        v,
    ) by {
        let i = choose|i: int| 0 <= i < fields.len() && #[trigger] fields[i] == (k, v);
        assert(more[i] == (k, v));
    }
    more
}

/// An optional text as a value: the text, or null.
pub open spec fn text_or_null(text: Option<Seq<char>>) -> JsonView {
    match text {
        Some(text) => JsonView::Str(text),
        None => JsonView::Null,
    }
}

/// An optional number as a value: the number, or null.
pub open spec fn uint_or_null(n: Option<u64>) -> JsonView {
    match n {
        Some(n) => JsonView::UInt(n),
        None => JsonView::Null,
    }
}

/// An optional object id as a value: its hexadecimal text, or null.
pub open spec fn hex_or_null(n: Option<u64>) -> JsonView {
    match n {
        Some(n) => JsonView::Str(hex_prefixed(n as nat)),
        None => JsonView::Null,
    }
}

/// The fields of a JSON object under construction.
#[derive(Debug)]
pub struct Fields {
    fields: Vec<(String, Json)>,
}

impl View for Fields {
    type V = Seq<(Seq<char>, JsonView)>;

    closed spec fn view(&self) -> Seq<(Seq<char>, JsonView)> {
        json_fields(self.fields@)
    }
}

impl Fields {
    /// No fields yet.
    pub fn new() -> (r: Fields)
        ensures
            r@ == Seq::<(Seq<char>, JsonView)>::empty(),
    {
        let r = Fields { fields: Vec::new() };
        proof {
            assert(r@ =~= Seq::empty());
        }
        r
    }

    /// Adds a field.
    pub fn put(&mut self, key: &str, value: Json)
        ensures
            final(self)@ == with(old(self)@, key@, value@),
    {
        let ghost before = self.fields@;
        let ghost v = value@;
        self.fields.push((key.to_owned(), value));
        proof {
            assert(json_fields(self.fields@) =~= json_fields(before).push((key@, v)));
        }
    }

    /// Adds a text.
    pub fn put_str(&mut self, key: &str, text: &str)
        ensures
            final(self)@ == with(old(self)@, key@, JsonView::Str(text@)),
    {
        self.put(key, Json::Str(text.to_owned()));
    }

    /// Adds a number.
    pub fn put_u64(&mut self, key: &str, n: u64)
        ensures
            final(self)@ == with(old(self)@, key@, JsonView::UInt(n)),
    {
        self.put(key, Json::UInt(n));
    }

    /// Adds a truth value.
    pub fn put_bool(&mut self, key: &str, value: bool)
        ensures
            final(self)@ == with(old(self)@, key@, JsonView::Bool(value)),
    {
        self.put(key, Json::Bool(value));
    }

    /// Adds an object id as hexadecimal text.
    pub fn put_hex(&mut self, key: &str, n: u64)
        ensures
            final(self)@ == with(old(self)@, key@, JsonView::Str(hex_prefixed(n as nat))),
    {
        self.put(key, Json::Str(hex_text(n)));
    }

    /// Adds a text, or null.
    pub fn put_opt_str(&mut self, key: &str, text: &Option<String>)
        ensures
            final(self)@ == with(old(self)@, key@, text_or_null(opt_text(*text))),
    {
        match text {
            Some(text) => self.put(key, Json::Str(text.clone())),
            None => self.put(key, Json::Null),
        }
    }

    /// Adds a number, or null.
    pub fn put_opt_u64(&mut self, key: &str, n: Option<u64>)
        ensures
            final(self)@ == with(old(self)@, key@, uint_or_null(n)),
    {
        match n {
            Some(n) => self.put(key, Json::UInt(n)),
            None => self.put(key, Json::Null),
        }
    }

    /// Adds an object id as hexadecimal text, or null.
    pub fn put_opt_hex(&mut self, key: &str, n: Option<u64>)
        ensures
            final(self)@ == with(old(self)@, key@, hex_or_null(n)),
    {
        match n {
            Some(n) => self.put(key, Json::Str(hex_text(n))),
            None => self.put(key, Json::Null),
        }
    }

    /// Adds an array.
    pub fn put_array(&mut self, key: &str, values: Vec<Json>)
        ensures
            final(self)@ == with(old(self)@, key@, JsonView::Array(json_values(values@))),
    {
        proof {
            lemma_array_view(values);
        }
        self.put(key, Json::Array(values));
    }

    /// The object that has these fields.
    pub fn object(self) -> (r: Json)
        ensures
            r@ == JsonView::Object(self@),
    {
        proof {
            lemma_object_view(self.fields);
        }
        Json::Object(self.fields)
    }
}

// ---------------------------------------------------------------------------
// Text
// ---------------------------------------------------------------------------

/// How a character is written inside a JSON string.
pub open spec fn escaped_char(c: char) -> Seq<char> {
    if c == '"' {
        "\\\""@
    } else if c == '\\' {
        "\\\\"@
    } else if c == '\n' {
        "\\n"@
    } else if c == '\r' {
        "\\r"@
    } else if c == '\t' {
        "\\t"@
    } else if (c as u32) < 0x20 {
        "\\u"@ + hex_padded(c as nat, 4)
    } else {
        seq![c]
    }
}

/// How a text is written inside a JSON string.
pub open spec fn escaped(s: Seq<char>) -> Seq<char>
    decreases s.len(),
{
    if s.len() == 0 {
        Seq::empty()
    } else {
        escaped(s.drop_last()) + escaped_char(s.last())
    }
}

/// A text as a JSON string.
pub open spec fn quoted(s: Seq<char>) -> Seq<char> {
    "\""@ + escaped(s) + "\""@
}

/// A signed number in decimal.
pub open spec fn signed_dec(n: int) -> Seq<char> {
    if n < 0 {
        "-"@ + dec((-n) as nat)
    } else {
        dec(n as nat)
    }
}

/// The compact text of a value: no whitespace, fields in their order.
pub open spec fn compact(value: JsonView) -> Seq<char>
    decreases value, 0nat,
{
    match value {
        JsonView::Null => "null"@,
        JsonView::Bool(b) => if b {
            "true"@
        } else {
            "false"@
        },
        JsonView::UInt(n) => dec(n as nat),
        JsonView::Int(n) => signed_dec(n as int),
        JsonView::Str(s) => quoted(s),
        JsonView::Array(values) => "["@ + compact_items(values, values.len()) + "]"@,
        JsonView::Object(fields) => "{"@ + compact_fields(fields, fields.len()) + "}"@,
    }
}

/// The compact texts of the first `n` values, with commas between them.
pub open spec fn compact_items(values: Seq<JsonView>, n: nat) -> Seq<char>
    decreases values, n,
{
    if n == 0 || n > values.len() {
        Seq::empty()
    } else if n == 1 {
        compact(values[0])
    } else {
        compact_items(values, (n - 1) as nat) + ","@ + compact(values[n - 1])
    }
}

/// The compact texts of the first `n` fields, with commas between them.
pub open spec fn compact_fields(fields: Seq<(Seq<char>, JsonView)>, n: nat) -> Seq<char>
    decreases fields, n,
{
    if n == 0 || n > fields.len() {
        Seq::empty()
    } else if n == 1 {
        quoted(fields[0].0) + ":"@ + compact(fields[0].1)
    } else {
        compact_fields(fields, (n - 1) as nat) + ","@ + (quoted(fields[n - 1].0) + ":"@ + compact(
            fields[n - 1].1,
        ))
    }
}

fn push_escaped(out: &mut String, c: char)
    ensures
        final(out)@ == old(out)@ + escaped_char(c),
{
    if c == '"' {
        out.append("\\\"");
    } else if c == '\\' {
        out.append("\\\\");
    } else if c == '\n' {
        out.append("\\n");
    } else if c == '\r' {
        out.append("\\r");
    } else if c == '\t' {
        out.append("\\t");
    } else if (c as u32) < 0x20 {
        let mut text = "\\u".to_owned();
        text.append(hex_padded_text(c as u64, 4).as_str());
        out.append(text.as_str());
    } else {
        let ghost before = out@;
        out.push(c);
        proof {
            assert(out@ =~= before + seq![c]);
        }
    }
}

fn quoted_text(s: &str) -> (r: String)
    ensures
        r@ == quoted(s@),
{
    let chars = chars_of(s);
    let mut out = "\"".to_owned();
    let mut i: usize = 0;
    proof {
        assert(s@.take(0) =~= Seq::empty());
        assert(out@ =~= "\""@ + escaped(s@.take(0)));
    }
    while i < chars.len()
        invariant
            chars@ == s@,
            i <= chars@.len(),
            out@ == "\""@ + escaped(s@.take(i as int)),
        decreases chars@.len() - i,
    {
        let ghost before = escaped(s@.take(i as int));
        push_escaped(&mut out, chars[i]);
        proof {
            let next = s@.take(i + 1);
            assert(next.drop_last() =~= s@.take(i as int));
            assert(next.last() == s@[i as int]);
            assert("\""@ + before + escaped_char(s@[i as int]) =~= "\""@ + (before + escaped_char(
                s@[i as int],
            )));
        }
        i += 1;
    }
    proof {
        assert(s@.take(i as int) =~= s@);
    }
    out.append("\"");
    out
}

impl Json {
    /// The array of `values`.
    pub fn array(values: Vec<Json>) -> (r: Json)
        ensures
            r@ == JsonView::Array(json_values(values@)),
    {
        proof {
            lemma_array_view(values);
        }
        Json::Array(values)
    }

    /// The value as compact JSON text.
    pub fn to_compact_string(&self) -> (r: String)
        ensures
            r@ == compact(self@),
        decreases self,
    {
        match self {
            Json::Null => "null".to_owned(),
            Json::Bool(value) => {
                if *value {
                    "true".to_owned()
                } else {
                    "false".to_owned()
                }
            },
            Json::UInt(n) => dec_text(*n),
            Json::Int(n) => {
                let value: i64 = *n;
                if value < 0 {
                    let mut text = "-".to_owned();
                    let size: u64 = (-(value + 1)) as u64 + 1;
                    push_dec(&mut text, size);
                    text
                } else {
                    dec_text(value as u64)
                }
            },
            Json::Str(text) => quoted_text(text.as_str()),
            Json::Array(values) => {
                let mut items = String::new();
                let ghost all = json_values(values@);
                let mut i: usize = 0;
                proof {
                    assert(items@ =~= Seq::empty());
                }
                while i < values.len()
                    invariant
                        i <= values@.len(),
                        all == json_values(values@),
                        *self == Json::Array(*values),
                        items@ == compact_items(all, i as nat),
                    decreases values@.len() - i,
                {
                    let ghost before = items@;
                    if i > 0 {
                        items.append(",");
                    }
                    let value = &values[i];
                    proof {
                        assert(decreases_to!(*self => (*self)->Array_0));
                        assert(decreases_to!(values@ => values@[i as int]));
                    }
                    items.append(value.to_compact_string().as_str());
                    proof {
                        if i == 0 {
                            assert(items@ =~= compact(all[0]));
                        } else {
                            assert(items@ =~= before + ","@ + compact(all[i as int]));
                        }
                    }
                    i += 1;
                }
                let mut out = "[".to_owned();
                out.append(items.as_str());
                out.append("]");
                proof {
                    lemma_array_view(*values);
                }
                out
            },
            Json::Object(fields) => {
                let mut items = String::new();
                let ghost all = json_fields(fields@);
                let mut i: usize = 0;
                proof {
                    assert(items@ =~= Seq::empty());
                }
                while i < fields.len()
                    invariant
                        i <= fields@.len(),
                        all == json_fields(fields@),
                        *self == Json::Object(*fields),
                        items@ == compact_fields(all, i as nat),
                    decreases fields@.len() - i,
                {
                    let ghost before = items@;
                    if i > 0 {
                        items.append(",");
                    }
                    let field = &fields[i];
                    proof {
                        assert(decreases_to!(*self => (*self)->Object_0));
                        assert(decreases_to!(fields@ => fields@[i as int]));
                        assert(decreases_to!(fields@[i as int] => fields@[i as int].1));
                    }
                    let mut part = quoted_text(field.0.as_str());
                    part.append(":");
                    part.append(field.1.to_compact_string().as_str());
                    items.append(part.as_str());
                    proof {
                        if i == 0 {
                            assert(items@ =~= quoted(all[0].0) + ":"@ + compact(all[0].1));
                        } else {
                            assert(items@ =~= before + ","@ + (quoted(all[i as int].0) + ":"@
                                + compact(all[i as int].1)));
                        }
                    }
                    i += 1;
                }
                let mut out = "{".to_owned();
                out.append(items.as_str());
                out.append("}");
                proof {
                    lemma_object_view(*fields);
                }
                out
            },
        }
    }
}

/// What may be missing is null where it is, and otherwise is what it is.
pub proof fn law_what_is_missing_is_null(text: Option<Seq<char>>, n: Option<u64>)
    ensures
        text_or_null(text) is Null <==> text is None,
        text is Some ==> text_or_null(text) == JsonView::Str(text->Some_0),
        uint_or_null(n) is Null <==> n is None,
        n is Some ==> uint_or_null(n) == JsonView::UInt(n->Some_0),
        hex_or_null(n) is Null <==> n is None,
        n is Some ==> hex_or_null(n) == JsonView::Str(hex_prefixed(n->Some_0 as nat)),
{
}

/// Fields stand in the order in which they were added.
pub proof fn law_fields_keep_their_order(
    fields: Seq<(Seq<char>, JsonView)>,
    key: Seq<char>,
    value: JsonView,
)
    ensures
        with(fields, key, value).take(fields.len() as int) == fields,
        with(fields, key, value).last() == (key, value),
{
    assert(with(fields, key, value).take(fields.len() as int) =~= fields);
}

} // verus!
