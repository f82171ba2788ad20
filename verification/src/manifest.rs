//! The manifest of a recovery: one JSON object in each line.
//!
//! A row names a snapshot, an absolute path in it and a path below the output root.
//! Rows that cannot be used are reported with the number of their line.
use crate::json_parse::{
    field_views, lemma_object_view, parse_json, JsonParser, ParsedJson, ParsedView,
};
use crate::options::{number_of, parse_number};
use crate::recover::is_safe;
use crate::text::{
    chars_of, contains_char, dec, decode_text, law_parts_make_up_the_text, opt_text,
    parts, push_dec_len, split_at_slashes, str_eq, texts, utf8_error_text,
};
use vstd::prelude::*;

verus! {

/// How long a line may be.
pub const MAX_MANIFEST_LINE: usize = 67_108_864;

/// One usable row.
#[derive(Debug)]
pub struct ManifestRow {
    pub line: u64,
    pub snapshot_xid: u64,
    pub snapshot_name: Option<String>,
    pub source_path: String,
    pub output_relative_path: String,
    pub relative_path: Option<String>,
    pub expected_fsoid: Option<u64>,
    pub expected_type: Option<String>,
}

/// The mathematical content of a [`ManifestRow`].
pub struct RowView {
    pub line: u64,
    pub snapshot_xid: u64,
    pub snapshot_name: Option<Seq<char>>,
    pub source_path: Seq<char>,
    pub output_relative_path: Seq<char>,
    pub relative_path: Option<Seq<char>>,
    pub expected_fsoid: Option<u64>,
    pub expected_type: Option<Seq<char>>,
}

impl View for ManifestRow {
    type V = RowView;

    open spec fn view(&self) -> RowView {
        RowView {
            line: self.line,
            snapshot_xid: self.snapshot_xid,
            snapshot_name: opt_text(self.snapshot_name),
            source_path: self.source_path@,
            output_relative_path: self.output_relative_path@,
            relative_path: opt_text(self.relative_path),
            expected_fsoid: self.expected_fsoid,
            expected_type: opt_text(self.expected_type),
        }
    }
}

/// A line that cannot be used.
#[derive(Debug)]
pub struct InvalidRow {
    pub line: u64,
    pub message: String,
}

/// The mathematical content of an [`InvalidRow`].
pub struct InvalidView {
    pub line: u64,
    pub message: Seq<char>,
}

impl View for InvalidRow {
    type V = InvalidView;

    open spec fn view(&self) -> InvalidView {
        InvalidView { line: self.line, message: self.message@ }
    }
}

/// A result seen through the views of its value and of its message.
pub open spec fn seen<T: View>(r: Result<T, String>) -> Result<T::V, Seq<char>> {
    match r {
        Ok(value) => Ok(value@),
        Err(message) => Err(message@),
    }
}

/// A result with an optional text, seen through views.
pub open spec fn seen_text(r: Result<Option<String>, String>) -> Result<
    Option<Seq<char>>,
    Seq<char>,
> {
    match r {
        Ok(text) => Ok(opt_text(text)),
        Err(message) => Err(message@),
    }
}

// ---------------------------------------------------------------------------
// Fields
// ---------------------------------------------------------------------------

/// The values of the fields called `name`, in order.
pub open spec fn occurrences(fields: Seq<(Seq<char>, ParsedView)>, name: Seq<char>) -> Seq<
    ParsedView,
>
    decreases fields.len(),
{
    if fields.len() == 0 {
        Seq::empty()
    } else {
        let front = occurrences(fields.drop_last(), name);
        if fields.last().0 == name {
            front.push(fields.last().1)
        } else {
            front
        }
    }
}

/// The message `before`, then `name` in backquotes, then `after`.
pub open spec fn about(before: Seq<char>, name: Seq<char>, after: Seq<char>) -> Seq<char> {
    before + "`"@ + name + "`"@ + after
}

fn about_text(before: &str, name: &str, after: &str) -> (r: String)
    ensures
        r@ == about(before@, name@, after@),
{
    let mut text = before.to_owned();
    text.append("`");
    text.append(name);
    text.append("`");
    text.append(after);
    text
}

/// The value of the one field called `name`, if there is one. A name that occurs
/// twice is an error.
pub open spec fn unique(fields: Seq<(Seq<char>, ParsedView)>, name: Seq<char>) -> Result<
    Option<ParsedView>,
    Seq<char>,
> {
    let values = occurrences(fields, name);
    if values.len() > 1 {
        Err(about("duplicate field "@, name, ""@))
    } else if values.len() == 1 {
        Ok(Some(values[0]))
    } else {
        Ok(None)
    }
}

/// The value of the one field called `name`, which must be there.
pub open spec fn required(fields: Seq<(Seq<char>, ParsedView)>, name: Seq<char>) -> Result<
    ParsedView,
    Seq<char>,
> {
    match unique(fields, name) {
        Err(message) => Err(message),
        Ok(None) => Err(about("missing required field "@, name, ""@)),
        Ok(Some(value)) => Ok(value),
    }
}

proof fn lemma_occurrences(fields: Seq<(Seq<char>, ParsedView)>, i: int, name: Seq<char>)
    requires
        0 <= i <= fields.len(),
    ensures
        occurrences(fields.take(i), name).len() <= occurrences(fields, name).len(),
    decreases fields.len() - i,
{
    if i == fields.len() {
        assert(fields.take(i) =~= fields);
    } else {
        let front = fields.drop_last();
        assert(front.take(i) =~= fields.take(i));
        lemma_occurrences(front, i, name);
    }
}

/// The value of the one field called `name`, if there is one.
pub fn unique_field<'a>(fields: &'a Vec<(String, ParsedJson)>, name: &str) -> (r: Result<
    Option<&'a ParsedJson>,
    String,
>)
    ensures
        match r {
            Err(message) => unique(field_views(fields@), name@) == Err::<
                Option<ParsedView>,
                Seq<char>,
            >(message@),
            Ok(None) => unique(field_views(fields@), name@) == Ok::<Option<ParsedView>, Seq<char>>(
                None,
            ),
            Ok(Some(value)) => unique(field_views(fields@), name@) == Ok::<
                Option<ParsedView>,
                Seq<char>,
            >(Some(value@)),
        },
{
    let ghost views = field_views(fields@);
    let mut found: Option<usize> = None;
    let mut i: usize = 0;
    proof {
        assert(views.take(0) =~= Seq::empty());
    }
    while i < fields.len()
        invariant
            i <= fields@.len(),
            views == field_views(fields@),
            match found {
                None => occurrences(views.take(i as int), name@).len() == 0,
                Some(k) => k < i && occurrences(views.take(i as int), name@) == seq![views[
                k as int].1],
            },
        decreases fields@.len() - i,
    {
        proof {
            let next = views.take(i + 1);
            assert(next.drop_last() =~= views.take(i as int));
            assert(next.last() == views[i as int]);
            lemma_occurrences(views, i + 1, name@);
        }
        if str_eq(fields[i].0.as_str(), name) {
            if found.is_some() {
                return Err(about_text("duplicate field ", name, ""));
            }
            found = Some(i);
            proof {
                assert(occurrences(views.take(i + 1), name@) =~= seq![views[i as int].1]);
            }
        }
        i += 1;
    }
    proof {
        assert(views.take(i as int) =~= views);
    }
    match found {
        None => Ok(None),
        Some(k) => Ok(Some(&fields[k].1)),
    }
}

/// The value of the one field called `name`, which must be there.
pub fn required_field<'a>(fields: &'a Vec<(String, ParsedJson)>, name: &str) -> (r: Result<
    &'a ParsedJson,
    String,
>)
    ensures
        match r {
            Err(message) => required(field_views(fields@), name@) == Err::<ParsedView, Seq<char>>(
                message@,
            ),
            Ok(value) => required(field_views(fields@), name@) == Ok::<ParsedView, Seq<char>>(
                value@,
            ),
        },
{
    match unique_field(fields, name) {
        Err(message) => Err(message),
        Ok(None) => Err(about_text("missing required field ", name, "")),
        Ok(Some(value)) => Ok(value),
    }
}

/// The text that a value is.
pub open spec fn string_in(value: ParsedView, field: Seq<char>) -> Result<Seq<char>, Seq<char>> {
    match value {
        ParsedView::String(text) => Ok(text),
        _ => Err(about("field "@, field, " must be a JSON string"@)),
    }
}

/// The text that a value is.
pub fn json_string(value: &ParsedJson, field: &str) -> (r: Result<String, String>)
    ensures
        seen(r) == string_in(value@, field@),
{
    match value {
        ParsedJson::String(text) => Ok(text.clone()),
        _ => Err(about_text("field ", field, " must be a JSON string")),
    }
}

/// The text of an optional field; null stands for none.
pub open spec fn optional_string_in(fields: Seq<(Seq<char>, ParsedView)>, name: Seq<char>) -> Result<
    Option<Seq<char>>,
    Seq<char>,
> {
    match unique(fields, name) {
        Err(message) => Err(message),
        Ok(None) => Ok(None),
        Ok(Some(ParsedView::Null)) => Ok(None),
        Ok(Some(value)) => match string_in(value, name) {
            Ok(text) => Ok(Some(text)),
            Err(message) => Err(message),
        },
    }
}

/// The text of an optional field; null stands for none.
pub fn optional_string(fields: &Vec<(String, ParsedJson)>, name: &str) -> (r: Result<
    Option<String>,
    String,
>)
    ensures
        seen_text(r) == optional_string_in(field_views(fields@), name@),
{
    match unique_field(fields, name) {
        Err(message) => Err(message),
        Ok(None) => Ok(None),
        Ok(Some(value)) => match value {
            ParsedJson::Null => Ok(None),
            _ => match json_string(value, name) {
                Ok(text) => Ok(Some(text)),
                Err(message) => Err(message),
            },
        },
    }
}

/// The number that a value is, be it written as a number or as a text.
pub open spec fn u64_in(value: ParsedView, field: Seq<char>) -> Result<u64, Seq<char>> {
    let text = match value {
        ParsedView::Number(text) => Some(text),
        ParsedView::String(text) => Some(text),
        _ => None,
    };
    match text {
        None => Err(about("field "@, field, " must be an unsigned integer"@)),
        Some(text) => match number_of(text) {
            Some(n) => Ok(n),
            None => Err(
                about("field "@, field, " is not a valid u64: "@) + "`"@ + text + "`"@,
            ),
        },
    }
}

fn u64_from(text: &str, field: &str) -> (r: Result<u64, String>)
    ensures
        match number_of(text@) {
            Some(n) => r == Ok::<u64, String>(n),
            None => r matches Err(message) && message@ == about(
                "field "@,
                field@,
                " is not a valid u64: "@,
            ) + "`"@ + text@ + "`"@,
        },
{
    match parse_number(text) {
        Some(n) => Ok(n),
        None => {
            let mut message = about_text("field ", field, " is not a valid u64: ");
            message.append("`");
            message.append(text);
            message.append("`");
            Err(message)
        },
    }
}

/// The number that a value is, be it written as a number or as a text.
pub fn json_u64(value: &ParsedJson, field: &str) -> (r: Result<u64, String>)
    ensures
        match r {
            Ok(n) => u64_in(value@, field@) == Ok::<u64, Seq<char>>(n),
            Err(message) => u64_in(value@, field@) == Err::<u64, Seq<char>>(message@),
        },
{
    match value {
        ParsedJson::Number(text) => u64_from(text.as_str(), field),
        ParsedJson::String(text) => u64_from(text.as_str(), field),
        _ => Err(about_text("field ", field, " must be an unsigned integer")),
    }
}

/// The number of an optional field; null stands for none.
pub open spec fn optional_u64_in(fields: Seq<(Seq<char>, ParsedView)>, name: Seq<char>) -> Result<
    Option<u64>,
    Seq<char>,
> {
    match unique(fields, name) {
        Err(message) => Err(message),
        Ok(None) => Ok(None),
        Ok(Some(ParsedView::Null)) => Ok(None),
        Ok(Some(value)) => match u64_in(value, name) {
            Ok(n) => Ok(Some(n)),
            Err(message) => Err(message),
        },
    }
}

/// The number of an optional field; null stands for none.
pub fn optional_u64(fields: &Vec<(String, ParsedJson)>, name: &str) -> (r: Result<
    Option<u64>,
    String,
>)
    ensures
        match r {
            Ok(n) => optional_u64_in(field_views(fields@), name@) == Ok::<Option<u64>, Seq<char>>(
                n,
            ),
            Err(message) => optional_u64_in(field_views(fields@), name@) == Err::<
                Option<u64>,
                Seq<char>,
            >(message@),
        },
{
    match unique_field(fields, name) {
        Err(message) => Err(message),
        Ok(None) => Ok(None),
        Ok(Some(value)) => match value {
            ParsedJson::Null => Ok(None),
            _ => match json_u64(value, name) {
                Ok(n) => Ok(Some(n)),
                Err(message) => Err(message),
            },
        },
    }
}

// ---------------------------------------------------------------------------
// Paths
// ---------------------------------------------------------------------------

/// A part of a path that names a directory or a file in it.
pub open spec fn is_plain(part: Seq<char>) -> bool {
    part.len() > 0 && part != "."@ && part != ".."@
}

/// All parts of a path are plain.
pub open spec fn all_plain(list: Seq<Seq<char>>) -> bool {
    forall|i: int| 0 <= i < list.len() ==> is_plain(#[trigger] list[i])
}

/// Why a text is no relative path to a leaf, if it is not one.
pub open spec fn relative_error(value: Seq<char>, field: Seq<char>) -> Option<Seq<char>> {
    if value.len() == 0 || value.contains('\0') || value[0] == '/' || value.last() == '/' {
        Some(field + " must be a non-empty relative leaf path without NUL"@)
    } else if !all_plain(parts(value)) {
        Some(field + " contains an empty, `.` or `..` path component"@)
    } else {
        None
    }
}

fn is_plain_part(part: &str) -> (r: bool)
    ensures
        r == is_plain(part@),
{
    proof {
        reveal_strlit("");
        if part@.len() == 0 {
            assert(part@ =~= ""@);
        }
    }
    !str_eq(part, "") && !str_eq(part, ".") && !str_eq(part, "..")
}

/// Accepts a relative path to a leaf, and gives it back.
pub fn validated_relative_path(value: &str, field: &str) -> (r: Result<String, String>)
    ensures
        match relative_error(value@, field@) {
            Some(message) => r matches Err(m) && m@ == message,
            None => r matches Ok(path) && path@ == value@,
        },
{
    let chars = chars_of(value);
    if chars.len() == 0 || contains_char(value, '\0') || chars[0] == '/' || chars[chars.len() - 1]
        == '/' {
        let mut message = field.to_owned();
        message.append(" must be a non-empty relative leaf path without NUL");
        return Err(message);
    }
    let list = split_at_slashes(value);
    let mut i: usize = 0;
    while i < list.len()
        invariant
            i <= list@.len(),
            value@.len() > 0 && !value@.contains('\0') && value@[0] != '/' && value@.last() != '/',
            texts(list@) == parts(value@),
            forall|k: int| 0 <= k < i ==> is_plain(#[trigger] texts(list@)[k]),
        decreases list@.len() - i,
    {
        if !is_plain_part(list[i].as_str()) {
            proof {
                assert(!is_plain(texts(list@)[i as int]));
            }
            let mut message = field.to_owned();
            message.append(" contains an empty, `.` or `..` path component");
            return Err(message);
        }
        i += 1;
    }
    Ok(value.to_owned())
}

/// Every part of an accepted path can be used as the name of an entry: the path
/// leads down from where it starts and nowhere else.
pub proof fn law_accepted_paths_lead_down(value: Seq<char>, field: Seq<char>, i: int)
    requires
        relative_error(value, field) is None,
        0 <= i < parts(value).len(),
    ensures
        is_safe(parts(value)[i]),
{
    let part = parts(value)[i];
    law_parts_make_up_the_text(value);
    assert(is_plain(part));
    lemma_parts_from_text(value, i);
    assert forall|k: int| 0 <= k < part.len() implies part[k] != '\0' by {
        assert(value.contains(part[k]));
    }
    assert(!part.contains('/')) by {
        if part.contains('/') {
            let k = choose|k: int| 0 <= k < part.len() && part[k] == '/';
            assert(parts(value)[i][k] != '/');
        }
    }
}

proof fn lemma_parts_from_text(s: Seq<char>, i: int)
    requires
        0 <= i < parts(s).len(),
    ensures
        forall|k: int| 0 <= k < parts(s)[i].len() ==> s.contains(#[trigger] parts(s)[i][k]),
    decreases s.len(),
{
    if s.len() > 0 {
        let front = parts(s.drop_last());
        law_parts_make_up_the_text(s.drop_last());
        if i < front.len() {
            lemma_parts_from_text(s.drop_last(), i);
        }
        assert forall|k: int| 0 <= k < parts(s)[i].len() implies s.contains(
            #[trigger] parts(s)[i][k],
        ) by {
            assert(s[s.len() - 1] == s.last());
            if i < front.len() && k < front[i].len() {
                let c = front[i][k];
                assert(s.drop_last().contains(c));
                let at = choose|at: int| 0 <= at < s.drop_last().len() && s.drop_last()[at] == c;
                assert(s[at] == c);
            }
        }
    }
}

// ---------------------------------------------------------------------------
// Rows
// ---------------------------------------------------------------------------

/// The absolute path that a field holds.
pub open spec fn source_path_in(fields: Seq<(Seq<char>, ParsedView)>) -> Result<
    Seq<char>,
    Seq<char>,
> {
    match required(fields, "source_path"@) {
        Err(message) => Err(message),
        Ok(value) => match string_in(value, "source_path"@) {
            Err(message) => Err(message),
            Ok(path) => if is_absolute(path) {
                Ok(path)
            } else {
                Err("source_path must be an absolute APFS path without NUL"@)
            },
        },
    }
}

/// A path that starts at the root and has no NUL.
pub open spec fn is_absolute(path: Seq<char>) -> bool {
    path.len() > 0 && path[0] == '/' && !path.contains('\0')
}

/// A path starts at the root and has no NUL.
pub fn is_absolute_path(path: &str) -> (r: bool)
    ensures
        r == is_absolute(path@),
{
    let chars = chars_of(path);
    chars.len() > 0 && chars[0] == '/' && !contains_char(path, '\0')
}

fn source_path_of(fields: &Vec<(String, ParsedJson)>) -> (r: Result<String, String>)
    ensures
        seen(r) == source_path_in(field_views(fields@)),
{
    match required_field(fields, "source_path") {
        Err(message) => Err(message),
        Ok(value) => match json_string(value, "source_path") {
            Err(message) => Err(message),
            Ok(path) => {
                if is_absolute_path(path.as_str()) {
                    Ok(path)
                } else {
                    Err("source_path must be an absolute APFS path without NUL".to_owned())
                }
            },
        },
    }
}

/// Where a row wants its output.
pub open spec fn output_path_in(fields: Seq<(Seq<char>, ParsedView)>) -> Result<
    Seq<char>,
    Seq<char>,
> {
    match required(fields, "output_relative_path"@) {
        Err(message) => Err(message),
        Ok(value) => match string_in(value, "output_relative_path"@) {
            Err(message) => Err(message),
            Ok(path) => match relative_error(path, "output_relative_path"@) {
                Some(message) => Err(message),
                None => Ok(path),
            },
        },
    }
}

fn output_path_of(fields: &Vec<(String, ParsedJson)>) -> (r: Result<String, String>)
    ensures
        seen(r) == output_path_in(field_views(fields@)),
{
    match required_field(fields, "output_relative_path") {
        Err(message) => Err(message),
        Ok(value) => match json_string(value, "output_relative_path") {
            Err(message) => Err(message),
            Ok(path) => validated_relative_path(path.as_str(), "output_relative_path"),
        },
    }
}

/// The path of a row below the root of any snapshot.
pub open spec fn relative_path_in(fields: Seq<(Seq<char>, ParsedView)>, fallback: bool) -> Result<
    Option<Seq<char>>,
    Seq<char>,
> {
    match optional_string_in(fields, "relative_path"@) {
        Err(message) => Err(message),
        Ok(None) => if fallback {
            Err("--fallback-history requires relative_path in every row"@)
        } else {
            Ok(None)
        },
        Ok(Some(path)) => match relative_error(path, "relative_path"@) {
            Some(message) => Err(message),
            None => Ok(Some(path)),
        },
    }
}

fn relative_path_of(fields: &Vec<(String, ParsedJson)>, fallback: bool) -> (r: Result<
    Option<String>,
    String,
>)
    ensures
        seen_text(r) == relative_path_in(field_views(fields@), fallback),
{
    match optional_string(fields, "relative_path") {
        Err(message) => Err(message),
        Ok(None) => {
            if fallback {
                Err("--fallback-history requires relative_path in every row".to_owned())
            } else {
                Ok(None)
            }
        },
        Ok(Some(path)) => match validated_relative_path(path.as_str(), "relative_path") {
            Err(message) => Err(message),
            Ok(path) => Ok(Some(path)),
        },
    }
}

/// The type that a row expects.
pub open spec fn type_in(fields: Seq<(Seq<char>, ParsedView)>) -> Result<
    Option<Seq<char>>,
    Seq<char>,
> {
    match optional_string_in(fields, "type"@) {
        Err(message) => Err(message),
        Ok(None) => Ok(None),
        Ok(Some(name)) => if name == "file"@ || name == "symlink"@ {
            Ok(Some(name))
        } else {
            Err(about("type must be `file` or `symlink`, got "@, name, ""@))
        },
    }
}

fn type_of(fields: &Vec<(String, ParsedJson)>) -> (r: Result<Option<String>, String>)
    ensures
        seen_text(r) == type_in(field_views(fields@)),
{
    match optional_string(fields, "type") {
        Err(message) => Err(message),
        Ok(None) => Ok(None),
        Ok(Some(name)) => {
            if str_eq(name.as_str(), "file") || str_eq(name.as_str(), "symlink") {
                Ok(Some(name))
            } else {
                Err(about_text("type must be `file` or `symlink`, got ", name.as_str(), ""))
            }
        },
    }
}

/// The number of the snapshot that a row names.
pub open spec fn snapshot_xid_in(fields: Seq<(Seq<char>, ParsedView)>) -> Result<u64, Seq<char>> {
    match required(fields, "snapshot_xid"@) {
        Err(message) => Err(message),
        Ok(value) => u64_in(value, "snapshot_xid"@),
    }
}

/// The row that the fields of an object make up, or the first thing that is wrong
/// with them.
pub open spec fn row_in(fields: Seq<(Seq<char>, ParsedView)>, line: u64, fallback: bool) -> Result<
    RowView,
    Seq<char>,
> {
    match snapshot_xid_in(fields) {
        Err(message) => Err(message),
        Ok(snapshot_xid) => match optional_string_in(fields, "snapshot_name"@) {
            Err(message) => Err(message),
            Ok(snapshot_name) => match source_path_in(fields) {
                Err(message) => Err(message),
                Ok(source_path) => match output_path_in(fields) {
                    Err(message) => Err(message),
                    Ok(output_relative_path) => match relative_path_in(fields, fallback) {
                        Err(message) => Err(message),
                        Ok(relative_path) => match optional_u64_in(fields, "fsoid"@) {
                            Err(message) => Err(message),
                            Ok(expected_fsoid) => match type_in(fields) {
                                Err(message) => Err(message),
                                Ok(expected_type) => Ok(
                                    RowView {
                                        line,
                                        snapshot_xid,
                                        snapshot_name,
                                        source_path,
                                        output_relative_path,
                                        relative_path,
                                        expected_fsoid,
                                        expected_type,
                                    },
                                ),
                            },
                        },
                    },
                },
            },
        },
    }
}

/// The row that a line of text makes up.
pub open spec fn row_of(text: Seq<char>, line: u64, fallback: bool) -> Result<RowView, Seq<char>> {
    match parse_json(vstd::utf8::encode_utf8(text)) {
        Err(message) => Err(message),
        Ok(ParsedView::Object(fields)) => row_in(fields, line, fallback),
        Ok(_) => Err("JSONL row must be an object"@),
    }
}

fn row_from_fields(fields: &Vec<(String, ParsedJson)>, line: u64, fallback: bool) -> (r: Result<
    ManifestRow,
    String,
>)
    ensures
        seen(r) == row_in(field_views(fields@), line, fallback),
{
    let snapshot_xid: u64 = match required_field(fields, "snapshot_xid") {
        Err(message) => return Err(message),
        Ok(value) => match json_u64(value, "snapshot_xid") {
            Err(message) => return Err(message),
            Ok(n) => n,
        },
    };
    let snapshot_name = match optional_string(fields, "snapshot_name") {
        Err(message) => return Err(message),
        Ok(name) => name,
    };
    let source_path = match source_path_of(fields) {
        Err(message) => return Err(message),
        Ok(path) => path,
    };
    let output_relative_path = match output_path_of(fields) {
        Err(message) => return Err(message),
        Ok(path) => path,
    };
    let relative_path = match relative_path_of(fields, fallback) {
        Err(message) => return Err(message),
        Ok(path) => path,
    };
    let expected_fsoid = match optional_u64(fields, "fsoid") {
        Err(message) => return Err(message),
        Ok(n) => n,
    };
    let expected_type = match type_of(fields) {
        Err(message) => return Err(message),
        Ok(name) => name,
    };
    Ok(
        ManifestRow {
            line,
            snapshot_xid,
            snapshot_name,
            source_path,
            output_relative_path,
            relative_path,
            expected_fsoid,
            expected_type,
        },
    )
}

/// Reads the row in a line of text.
pub fn parse_manifest_row(text: &str, line: u64, fallback: bool) -> (r: Result<ManifestRow, String>)
    ensures
        seen(r) == row_of(text@, line, fallback),
{
    match JsonParser::new(text).parse() {
        Err(message) => Err(message),
        Ok(value) => match value {
            ParsedJson::Object(fields) => {
                proof {
                    lemma_object_view(fields);
                }
                row_from_fields(&fields, line, fallback)
            },
            _ => Err("JSONL row must be an object".to_owned()),
        },
    }
}

/// A row that is read has an absolute source, an output path of which every part is
/// safe, and where older snapshots may be tried a path to look for in them.
pub proof fn law_rows_are_usable(text: Seq<char>, line: u64, fallback: bool, i: int)
    requires
        row_of(text, line, fallback) is Ok,
        0 <= i < parts(row_of(text, line, fallback)->Ok_0.output_relative_path).len(),
    ensures
        ({
            let row = row_of(text, line, fallback)->Ok_0;
            &&& is_absolute(row.source_path)
            &&& is_safe(parts(row.output_relative_path)[i])
            &&& fallback ==> row.relative_path is Some
            &&& row.line == line
        }),
{
    let row = row_of(text, line, fallback)->Ok_0;
    law_accepted_paths_lead_down(row.output_relative_path, "output_relative_path"@, i);
}

/// No field that a row is read from may be given twice: a second value never takes
/// the place of the first.
pub proof fn law_no_field_is_read_twice(
    fields: Seq<(Seq<char>, ParsedView)>,
    line: u64,
    fallback: bool,
    name: Seq<char>,
)
    requires
        name == "snapshot_xid"@ || name == "snapshot_name"@ || name == "source_path"@ || name
            == "output_relative_path"@ || name == "relative_path"@ || name == "fsoid"@ || name
            == "type"@,
        occurrences(fields, name).len() > 1,
    ensures
        row_in(fields, line, fallback) is Err,
{
}

// ---------------------------------------------------------------------------
// Lines
// ---------------------------------------------------------------------------

/// What a line is.
pub enum LineView {
    Blank,
    Row(RowView),
    Invalid(Seq<char>),
}

/// A byte that counts as blank.
pub open spec fn is_blank_byte(b: u8) -> bool {
    b == 0x20 || b == 0x09 || b == 0x0a || b == 0x0c || b == 0x0d
}

/// A line without the bytes that end it.
pub open spec fn line_body(line: Seq<u8>) -> Seq<u8> {
    let body = if line.len() > 0 && line.last() == 0x0a {
        line.drop_last()
    } else {
        line
    };
    if body.len() > 0 && body.last() == 0x0d {
        body.drop_last()
    } else {
        body
    }
}

/// What the bytes of line `line`, up to and with their line feed, are.
pub open spec fn line_of(bytes: Seq<u8>, line: u64, fallback: bool) -> LineView {
    let body = line_body(bytes);
    if bytes.len() > MAX_MANIFEST_LINE {
        LineView::Invalid("JSONL row exceeds "@ + dec(MAX_MANIFEST_LINE as nat) + " bytes"@)
    } else if forall|i: int| 0 <= i < body.len() ==> is_blank_byte(#[trigger] body[i]) {
        LineView::Blank
    } else if !vstd::utf8::valid_utf8(body) {
        LineView::Invalid("row is not UTF-8 JSON: "@ + utf8_error_text(body))
    } else {
        match row_of(vstd::utf8::decode_utf8(body), line, fallback) {
            Ok(row) => LineView::Row(row),
            Err(message) => LineView::Invalid(message),
        }
    }
}

/// The manifest as far as it was read.
#[derive(Debug)]
pub struct Manifest {
    pub line: u64,
    pub rows: Vec<ManifestRow>,
    pub invalid: Vec<InvalidRow>,
}

/// The mathematical content of a [`Manifest`].
pub struct ManifestView {
    pub line: u64,
    pub rows: Seq<RowView>,
    pub invalid: Seq<InvalidView>,
}

/// The views of a list of rows.
pub open spec fn row_views(rows: Seq<ManifestRow>) -> Seq<RowView> {
    Seq::new(rows.len(), |i: int| rows[i]@)
}

/// The views of a list of invalid rows.
pub open spec fn invalid_views(rows: Seq<InvalidRow>) -> Seq<InvalidView> {
    Seq::new(rows.len(), |i: int| rows[i]@)
}

impl View for Manifest {
    type V = ManifestView;

    open spec fn view(&self) -> ManifestView {
        ManifestView {
            line: self.line,
            rows: row_views(self.rows@),
            invalid: invalid_views(self.invalid@),
        }
    }
}

/// The manifest with one more line.
pub open spec fn with_line(before: ManifestView, bytes: Seq<u8>, fallback: bool) -> ManifestView {
    let line = if before.line == u64::MAX {
        u64::MAX
    } else {
        (before.line + 1) as u64
    };
    match line_of(bytes, line, fallback) {
        LineView::Blank => ManifestView { line, ..before },
        LineView::Row(row) => ManifestView { line, rows: before.rows.push(row), ..before },
        LineView::Invalid(message) => ManifestView {
            line,
            invalid: before.invalid.push(InvalidView { line, message }),
            ..before
        },
    }
}

/// The manifest that lines make up.
pub open spec fn manifest_of(lines: Seq<Seq<u8>>, fallback: bool) -> ManifestView
    decreases lines.len(),
{
    if lines.len() == 0 {
        ManifestView { line: 0, rows: Seq::empty(), invalid: Seq::empty() }
    } else {
        with_line(manifest_of(lines.drop_last(), fallback), lines.last(), fallback)
    }
}

fn strip_line_end(bytes: &mut Vec<u8>)
    ensures
        final(bytes)@ == line_body(old(bytes)@),
{
    if bytes.len() > 0 && bytes[bytes.len() - 1] == 0x0a {
        bytes.pop();
    }
    if bytes.len() > 0 && bytes[bytes.len() - 1] == 0x0d {
        bytes.pop();
    }
}

fn is_blank(body: &Vec<u8>) -> (r: bool)
    ensures
        r == (forall|i: int| 0 <= i < body@.len() ==> is_blank_byte(#[trigger] body@[i])),
{
    let mut i: usize = 0;
    while i < body.len()
        invariant
            i <= body@.len(),
            forall|k: int| 0 <= k < i ==> is_blank_byte(#[trigger] body@[k]),
        decreases body@.len() - i,
    {
        let b: u8 = body[i];
        if !(b == 0x20 || b == 0x09 || b == 0x0a || b == 0x0c || b == 0x0d) {
            return false;
        }
        i += 1;
    }
    true
}

impl Manifest {
    /// A manifest of which nothing was read yet.
    pub fn new() -> (r: Manifest)
        ensures
            r@ == manifest_of(Seq::empty(), false),
            r@ == manifest_of(Seq::empty(), true),
    {
        let r = Manifest { line: 0, rows: Vec::new(), invalid: Vec::new() };
        proof {
            assert(r@.rows =~= Seq::empty());
            assert(r@.invalid =~= Seq::empty());
        }
        r
    }

    fn refuse(&mut self, message: String)
        ensures
            final(self)@ == (ManifestView {
                invalid: old(self)@.invalid.push(
                    InvalidView { line: old(self)@.line, message: message@ },
                ),
                ..old(self)@
            }),
    {
        let ghost before = self@;
        let line: u64 = self.line;
        let ghost text = message@;
        self.invalid.push(InvalidRow { line, message });
        proof {
            assert(self@.invalid =~= before.invalid.push(InvalidView { line, message: text }));
        }
    }

    /// Takes in the next line, up to and with its line feed.
    pub fn take_line(&mut self, bytes: Vec<u8>, fallback: bool)
        ensures
            final(self)@ == with_line(old(self)@, bytes@, fallback),
    {
        let mut body = bytes;
        self.line =
        if self.line == u64::MAX {
            u64::MAX
        } else {
            self.line + 1
        };
        if body.len() > MAX_MANIFEST_LINE {
            let mut message = "JSONL row exceeds ".to_owned();
            push_dec_len(&mut message, MAX_MANIFEST_LINE);
            message.append(" bytes");
            self.refuse(message);
            return ;
        }
        strip_line_end(&mut body);
        if is_blank(&body) {
            return ;
        }
        match decode_text(&body) {
            Err(error) => {
                let mut message = "row is not UTF-8 JSON: ".to_owned();
                message.append(error.as_str());
                self.refuse(message);
            },
            Ok(text) => match parse_manifest_row(text.as_str(), self.line, fallback) {
                Err(message) => self.refuse(message),
                Ok(row) => {
                    let ghost before = self@;
                    let ghost view = row@;
                    self.rows.push(row);
                    proof {
                        assert(self@.rows =~= before.rows.push(view));
                    }
                },
            },
        }
    }
}

/// How many of the lines are blank.
pub open spec fn blank_count(lines: Seq<Seq<u8>>, fallback: bool) -> int
    decreases lines.len(),
{
    if lines.len() == 0 {
        0
    } else {
        blank_count(lines.drop_last(), fallback) + if line_of(lines.last(), 0, fallback) is Blank {
            1int
        } else {
            0
        }
    }
}

/// No line is lost: each gives a row or an invalid row, or is blank.
pub proof fn law_each_line_is_accounted_for(lines: Seq<Seq<u8>>, fallback: bool)
    ensures
        manifest_of(lines, fallback).rows.len() + manifest_of(lines, fallback).invalid.len()
            + blank_count(lines, fallback) == lines.len(),
        lines.len() <= u64::MAX ==> manifest_of(lines, fallback).line == lines.len(),
    decreases lines.len(),
{
    if lines.len() > 0 {
        law_each_line_is_accounted_for(lines.drop_last(), fallback);
    }
}

// ---------------------------------------------------------------------------
// Laws on fields and lines
// ---------------------------------------------------------------------------

/// One of `fields` is called `name`, no other is, and it has `value`.
pub open spec fn only_field(
    fields: Seq<(Seq<char>, ParsedView)>,
    name: Seq<char>,
    value: ParsedView,
) -> bool {
    exists|i: int|
        {
            &&& 0 <= i < fields.len()
            &&& #[trigger] fields[i] == (name, value)
            &&& forall|j: int|
                0 <= j < fields.len() && j != i ==> (#[trigger] fields[j]).0 != name
        }
}

/// None of `fields` is called `name`.
pub open spec fn no_field(fields: Seq<(Seq<char>, ParsedView)>, name: Seq<char>) -> bool {
    forall|j: int| 0 <= j < fields.len() ==> (#[trigger] fields[j]).0 != name
}

proof fn lemma_field_count(fields: Seq<(Seq<char>, ParsedView)>, name: Seq<char>)
    ensures
        occurrences(fields, name).len() == 0 <==> no_field(fields, name),
        forall|value: ParsedView| #[trigger]
            only_field(fields, name, value) <==> occurrences(fields, name).len() == 1
                && occurrences(fields, name)[0] == value,
    decreases fields.len(),
{
    if fields.len() > 0 {
        let front = fields.drop_last();
        let n = front.len() as int;
        lemma_field_count(front, name);
        assert(forall|j: int| 0 <= j < n ==> #[trigger] front[j] == fields[j]);
        if fields[n].0 == name {
            assert(!no_field(fields, name));
        } else {
            assert(no_field(front, name) ==> no_field(fields, name)) by {
                if no_field(front, name) {
                    assert forall|j: int| 0 <= j < fields.len() implies (#[trigger] fields[j]).0
                        != name by {
                        if j < n {
                            assert(front[j].0 != name);
                        }
                    }
                }
            }
            assert(no_field(fields, name) ==> no_field(front, name)) by {
                if no_field(fields, name) {
                    assert forall|j: int| 0 <= j < front.len() implies (#[trigger] front[j]).0
                        != name by {
                        assert(fields[j].0 != name);
                    }
                }
            }
        }
        assert forall|value: ParsedView| #[trigger]
            only_field(fields, name, value) <==> occurrences(fields, name).len() == 1
                && occurrences(fields, name)[0] == value by {
            assert(only_field(front, name, value) <==> occurrences(front, name).len() == 1
                && occurrences(front, name)[0] == value);
            if only_field(fields, name, value) {
                let i = choose|i: int|
                    {
                        &&& 0 <= i < fields.len()
                        &&& #[trigger] fields[i] == (name, value)
                        &&& forall|j: int|
                            0 <= j < fields.len() && j != i ==> (#[trigger] fields[j]).0 != name
                    };
                if i == n {
                    assert forall|j: int| 0 <= j < front.len() implies (#[trigger] front[j]).0
                        != name by {
                        assert(fields[j].0 != name);
                    }
                    assert(no_field(front, name));
                } else {
                    assert(fields[n].0 != name);
                    assert(front[i] == (name, value));
                    assert forall|j: int| 0 <= j < front.len() && j != i implies (#[trigger]
                    front[j]).0 != name by {
                        assert(fields[j].0 != name);
                    }
                    assert(only_field(front, name, value));
                }
            }
            if occurrences(fields, name).len() == 1 && occurrences(fields, name)[0] == value {
                if fields[n].0 == name {
                    assert(no_field(front, name));
                    assert(fields[n] == (name, value));
                    assert forall|j: int| 0 <= j < fields.len() && j != n implies (#[trigger]
                    fields[j]).0 != name by {
                        assert(front[j].0 != name);
                    }
                    assert(only_field(fields, name, value));
                } else {
                    assert(only_field(front, name, value));
                    let i = choose|i: int|
                        {
                            &&& 0 <= i < front.len()
                            &&& #[trigger] front[i] == (name, value)
                            &&& forall|j: int|
                                0 <= j < front.len() && j != i ==> (#[trigger] front[j]).0 != name
                        };
                    assert(fields[i] == (name, value));
                    assert forall|j: int| 0 <= j < fields.len() && j != i implies (#[trigger]
                    fields[j]).0 != name by {
                        if j < n {
                            assert(front[j].0 != name);
                        }
                    }
                    assert(only_field(fields, name, value));
                }
            }
        }
    } else {
        assert forall|value: ParsedView| #[trigger]
            only_field(fields, name, value) <==> occurrences(fields, name).len() == 1
                && occurrences(fields, name)[0] == value by {
        }
    }
}

/// A field is read where it occurs once; none is read where it does not occur, and one that
/// occurs more often is refused.
pub proof fn law_field_is_read_where_it_occurs_once(
    fields: Seq<(Seq<char>, ParsedView)>,
    name: Seq<char>,
    value: ParsedView,
)
    ensures
        unique(fields, name) == Ok::<Option<ParsedView>, Seq<char>>(Some(value)) <==> only_field(
            fields,
            name,
            value,
        ),
        unique(fields, name) == Ok::<Option<ParsedView>, Seq<char>>(None) <==> no_field(
            fields,
            name,
        ),
        required(fields, name) == Ok::<ParsedView, Seq<char>>(value) <==> only_field(
            fields,
            name,
            value,
        ),
{
    lemma_field_count(fields, name);
    assert(only_field(fields, name, value) <==> occurrences(fields, name).len() == 1
        && occurrences(fields, name)[0] == value);
}

/// An optional text of a row: the text, or nothing where the field is missing or null.
pub open spec fn text_field(
    fields: Seq<(Seq<char>, ParsedView)>,
    name: Seq<char>,
    text: Option<Seq<char>>,
) -> bool {
    match text {
        Some(text) => only_field(fields, name, ParsedView::String(text)),
        None => no_field(fields, name) || only_field(fields, name, ParsedView::Null),
    }
}

/// `fields` has `n` under `name`, as a number or as a text that stands for one.
pub open spec fn number_field(
    fields: Seq<(Seq<char>, ParsedView)>,
    name: Seq<char>,
    n: u64,
) -> bool {
    exists|text: Seq<char>|
        #[trigger] number_of(text) == Some(n) && (only_field(
            fields,
            name,
            ParsedView::Number(text),
        ) || only_field(fields, name, ParsedView::String(text)))
}

proof fn lemma_text_field(
    fields: Seq<(Seq<char>, ParsedView)>,
    name: Seq<char>,
    text: Option<Seq<char>>,
)
    ensures
        optional_string_in(fields, name) == Ok::<Option<Seq<char>>, Seq<char>>(text)
            <==> text_field(fields, name, text),
{
    lemma_field_count(fields, name);
    let values = occurrences(fields, name);
    if values.len() == 1 {
        assert(only_field(fields, name, values[0]));
    }
    assert(only_field(fields, name, ParsedView::Null) <==> values.len() == 1 && values[0]
        == ParsedView::Null);
    if let Some(t) = text {
        assert(only_field(fields, name, ParsedView::String(t)) <==> values.len() == 1 && values[0]
            == ParsedView::String(t));
    }
}

proof fn lemma_number_field(fields: Seq<(Seq<char>, ParsedView)>, name: Seq<char>, n: u64)
    ensures
        number_field(fields, name, n) <==> (unique(fields, name) matches Ok(Some(value)) && u64_in(
            value,
            name,
        ) == Ok::<u64, Seq<char>>(n)),
{
    lemma_field_count(fields, name);
    let values = occurrences(fields, name);
    assert(forall|text: Seq<char>| #[trigger]
        only_field(fields, name, ParsedView::Number(text)) <==> values.len() == 1 && values[0]
            == ParsedView::Number(text));
    assert(forall|text: Seq<char>| #[trigger]
        only_field(fields, name, ParsedView::String(text)) <==> values.len() == 1 && values[0]
            == ParsedView::String(text));
    if number_field(fields, name, n) {
        let text = choose|text: Seq<char>|
            #[trigger] number_of(text) == Some(n) && (only_field(
                fields,
                name,
                ParsedView::Number(text),
            ) || only_field(fields, name, ParsedView::String(text)));
        assert(values.len() == 1);
    }
    if values.len() == 1 && u64_in(values[0], name) == Ok::<u64, Seq<char>>(n) {
        match values[0] {
            ParsedView::Number(text) => {
                assert(number_of(text) == Some(n));
            },
            ParsedView::String(text) => {
                assert(number_of(text) == Some(n));
            },
            _ => {},
        }
    }
}

/// A row is accepted exactly if its fields are sound, and it then holds what they say: the
/// transaction and both paths are needed, the rest may be missing or null. A path is
/// absolute or leads down, a type is that of a file or of a link, and where older snapshots
/// may be tried the relative path is needed too.
#[verifier::rlimit(50)]
pub proof fn law_row_holds_what_its_fields_say(
    fields: Seq<(Seq<char>, ParsedView)>,
    line: u64,
    fallback: bool,
    row: RowView,
)
    ensures
        row_in(fields, line, fallback) == Ok::<RowView, Seq<char>>(row) <==> {
            &&& row.line == line
            &&& number_field(fields, "snapshot_xid"@, row.snapshot_xid)
            &&& text_field(fields, "snapshot_name"@, row.snapshot_name)
            &&& only_field(fields, "source_path"@, ParsedView::String(row.source_path))
            &&& row.source_path.len() > 0 && row.source_path[0] == '/'
                && !row.source_path.contains('\0')
            &&& only_field(
                fields,
                "output_relative_path"@,
                ParsedView::String(row.output_relative_path),
            )
            &&& relative_error(row.output_relative_path, "output_relative_path"@) is None
            &&& text_field(fields, "relative_path"@, row.relative_path)
            &&& row.relative_path matches Some(path) ==> relative_error(path, "relative_path"@)
                is None
            &&& fallback ==> row.relative_path is Some
            &&& row.expected_fsoid matches Some(n) ==> number_field(fields, "fsoid"@, n)
            &&& row.expected_fsoid is None ==> no_field(fields, "fsoid"@) || only_field(
                fields,
                "fsoid"@,
                ParsedView::Null,
            )
            &&& text_field(fields, "type"@, row.expected_type)
            &&& row.expected_type matches Some(name) ==> name == "file"@ || name == "symlink"@
        },
{
    lemma_number_field(fields, "snapshot_xid"@, row.snapshot_xid);
    lemma_text_field(fields, "snapshot_name"@, row.snapshot_name);
    law_field_is_read_where_it_occurs_once(
        fields,
        "source_path"@,
        ParsedView::String(row.source_path),
    );
    law_field_is_read_where_it_occurs_once(
        fields,
        "output_relative_path"@,
        ParsedView::String(row.output_relative_path),
    );
    lemma_text_field(fields, "relative_path"@, row.relative_path);
    lemma_text_field(fields, "type"@, row.expected_type);
    law_field_is_read_where_it_occurs_once(fields, "fsoid"@, ParsedView::Null);
    if let Some(n) = row.expected_fsoid {
        lemma_number_field(fields, "fsoid"@, n);
    }
    assert(snapshot_xid_in(fields) == Ok::<u64, Seq<char>>(row.snapshot_xid) <==> number_field(
        fields,
        "snapshot_xid"@,
        row.snapshot_xid,
    ));
    assert(source_path_in(fields) == Ok::<Seq<char>, Seq<char>>(row.source_path) <==> only_field(
        fields,
        "source_path"@,
        ParsedView::String(row.source_path),
    ) && is_absolute(row.source_path));
    assert(output_path_in(fields) == Ok::<Seq<char>, Seq<char>>(row.output_relative_path)
        <==> only_field(
        fields,
        "output_relative_path"@,
        ParsedView::String(row.output_relative_path),
    ) && relative_error(row.output_relative_path, "output_relative_path"@) is None);
    assert(relative_path_in(fields, fallback) == Ok::<Option<Seq<char>>, Seq<char>>(
        row.relative_path,
    ) <==> text_field(fields, "relative_path"@, row.relative_path) && (fallback
        ==> row.relative_path is Some) && (row.relative_path matches Some(path) ==> relative_error(
        path,
        "relative_path"@,
    ) is None));
    assert(type_in(fields) == Ok::<Option<Seq<char>>, Seq<char>>(row.expected_type)
        <==> text_field(fields, "type"@, row.expected_type) && (row.expected_type matches Some(
        name,
    ) ==> name == "file"@ || name == "symlink"@));
    assert(optional_u64_in(fields, "fsoid"@) == Ok::<Option<u64>, Seq<char>>(row.expected_fsoid)
        <==> match row.expected_fsoid {
        Some(n) => number_field(fields, "fsoid"@, n),
        None => no_field(fields, "fsoid"@) || only_field(fields, "fsoid"@, ParsedView::Null),
    });
}

/// The end of a line is no part of it: a line feed, or a carriage return and a line feed.
pub proof fn law_line_ends_are_cut(body: Seq<u8>)
    requires
        body.len() > 0 ==> body[body.len() - 1] != 0x0a && body[body.len() - 1] != 0x0d,
    ensures
        line_body(body) == body,
        line_body(body.push(0x0a)) == body,
        line_body(body.push(0x0d)) == body,
        line_body(body.push(0x0d).push(0x0a)) == body,
{
    assert(body.push(0x0a).drop_last() =~= body);
    assert(body.push(0x0d).drop_last() =~= body);
    assert(body.push(0x0d).push(0x0a).drop_last() =~= body.push(0x0d));
}

/// A line is refused where it is longer than sixty-four mebibytes; one of nothing but blanks,
/// tabs, feeds and returns is passed over; any other is a row or refused, by what it says.
pub proof fn law_lines_are_blank_or_rows(bytes: Seq<u8>, line: u64, fallback: bool)
    ensures
        ({
            let body = line_body(bytes);
            let told = line_of(bytes, line, fallback);
            let blank = forall|i: int|
                0 <= i < body.len() ==> (#[trigger] body[i] == 0x20 || body[i] == 0x09 || body[i]
                    == 0x0a || body[i] == 0x0c || body[i] == 0x0d);
            &&& bytes.len() > 67_108_864 ==> told is Invalid
            &&& told is Blank <==> bytes.len() <= 67_108_864 && blank
            &&& told matches LineView::Row(row) ==> bytes.len() <= 67_108_864 && !blank
                && vstd::utf8::valid_utf8(body) && exists|fields: Seq<(Seq<char>, ParsedView)>|
                parse_json(vstd::utf8::encode_utf8(vstd::utf8::decode_utf8(body))) == Ok::<
                    ParsedView,
                    Seq<char>,
                >(ParsedView::Object(fields)) && #[trigger] row_in(fields, line, fallback) == Ok::<
                    RowView,
                    Seq<char>,
                >(row)
        }),
{
    let body = line_body(bytes);
    let blank = forall|i: int|
        0 <= i < body.len() ==> (#[trigger] body[i] == 0x20 || body[i] == 0x09 || body[i] == 0x0a
            || body[i] == 0x0c || body[i] == 0x0d);
    assert(blank <==> forall|i: int| 0 <= i < body.len() ==> is_blank_byte(#[trigger] body[i])) by {
        if blank {
            assert forall|i: int| 0 <= i < body.len() implies is_blank_byte(#[trigger] body[i]) by {
            }
        }
        if forall|i: int| 0 <= i < body.len() ==> is_blank_byte(#[trigger] body[i]) {
            assert forall|i: int| 0 <= i < body.len() implies (#[trigger] body[i] == 0x20
                || body[i] == 0x09 || body[i] == 0x0a || body[i] == 0x0c || body[i] == 0x0d) by {
                assert(is_blank_byte(body[i]));
            }
        }
    }
    if line_of(bytes, line, fallback) is Row {
        match parse_json(vstd::utf8::encode_utf8(vstd::utf8::decode_utf8(body))) {
            Ok(ParsedView::Object(fields)) => {
                assert(row_in(fields, line, fallback) is Ok);
            },
            _ => {},
        }
    }
}

/// Lines are numbered from one, and each row and each refusal has the number of its line.
pub proof fn law_lines_are_numbered(lines: Seq<Seq<u8>>, next: Seq<u8>, fallback: bool)
    requires
        lines.len() < u64::MAX,
    ensures
        manifest_of(lines, fallback).line == lines.len(),
        ({
            let before = manifest_of(lines, fallback);
            let after = manifest_of(lines.push(next), fallback);
            let number = (lines.len() + 1) as u64;
            match line_of(next, number, fallback) {
                LineView::Blank => after.rows == before.rows && after.invalid == before.invalid,
                LineView::Row(row) => after.rows == before.rows.push(row) && after.invalid
                    == before.invalid && row.line == number,
                LineView::Invalid(message) => after.rows == before.rows && after.invalid
                    == before.invalid.push(InvalidView { line: number, message }),
            }
        }),
    decreases lines.len(),
{
    if lines.len() > 0 {
        law_lines_are_numbered(lines.drop_last(), lines.last(), fallback);
        assert(lines.drop_last().push(lines.last()) =~= lines);
    }
    assert(lines.push(next).drop_last() =~= lines);
    let number = (lines.len() + 1) as u64;
    if let LineView::Row(row) = line_of(next, number, fallback) {
        law_lines_are_blank_or_rows(next, number, fallback);
        let fields = choose|fields: Seq<(Seq<char>, ParsedView)>|
            parse_json(
                vstd::utf8::encode_utf8(vstd::utf8::decode_utf8(line_body(next))),
            ) == Ok::<ParsedView, Seq<char>>(ParsedView::Object(fields)) && #[trigger] row_in(
                fields,
                number,
                fallback,
            ) == Ok::<RowView, Seq<char>>(row);
        law_row_holds_what_its_fields_say(fields, number, fallback, row);
    }
}

} // verus!
