//! Text helpers: comparing, ordering, searching and rewriting strings, and
//! writing numbers.
//!
//! A string is modelled by its sequence of characters. Functions that need to
//! look inside a string take its characters out once and work on them.
use vstd::prelude::*;

verus! {

/// Appends one character, as `String::push` is documented to do.
pub assume_specification[ std::string::String::push ](s: &mut std::string::String, c: char)
    ensures
        final(s)@ == old(s)@.push(c),
;

/// The characters of `s`, in order.
pub fn chars_of(s: &str) -> (r: Vec<char>)
    ensures
        r@ == s@,
{
    let mut out: Vec<char> = Vec::new();
    for c in it: s.chars()
        invariant
            it.seq() == s@,
            out@ == s@.take(it.index() as int),
    {
        out.push(c);
        proof {
            let i = it.index() as int;
            assert(s@.take(i).push(c) =~= s@.take(i + 1));
        }
    }
    proof {
        assert(s@.take(s@.len() as int) =~= s@);
    }
    out
}

/// The message with which `std::str::from_utf8` rejects `bytes`.
pub uninterp spec fn utf8_error_text(bytes: Seq<u8>) -> Seq<char>;

/// Decodes UTF-8 with `std::str::from_utf8`, which accepts exactly the byte
/// strings that are well-formed UTF-8 and yields the text that they encode. What
/// it says of a malformed one is a function of the bytes alone; that text is
/// named, not spelled out.
#[verifier::external_body]
pub(crate) fn decode_text(bytes: &Vec<u8>) -> (r: Result<String, String>)
    ensures
        match r {
            Ok(text) => vstd::utf8::valid_utf8(bytes@) && text@ == vstd::utf8::decode_utf8(bytes@),
            Err(message) => !vstd::utf8::valid_utf8(bytes@) && message@ == utf8_error_text(bytes@),
        },
{
    match std::str::from_utf8(bytes) {
        Ok(text) => Ok(text.to_string()),
        Err(error) => Err(error.to_string()),
    }
}

/// The string made of `chars[from..to]`.
pub fn string_from(chars: &Vec<char>, from: usize, to: usize) -> (r: String)
    requires
        from <= to <= chars@.len(),
    ensures
        r@ == chars@.subrange(from as int, to as int),
{
    let mut out = String::new();
    let mut i: usize = from;
    proof {
        assert(chars@.subrange(from as int, from as int) =~= Seq::<char>::empty());
    }
    while i < to
        invariant
            from <= i <= to <= chars@.len(),
            out@ == chars@.subrange(from as int, i as int),
        decreases to - i,
    {
        out.push(chars[i]);
        proof {
            assert(chars@.subrange(from as int, i as int).push(chars@[i as int])
                =~= chars@.subrange(from as int, i + 1));
        }
        i += 1;
    }
    out
}

/// The string made of `chars`.
pub fn string_of(chars: &Vec<char>) -> (r: String)
    ensures
        r@ == chars@,
{
    proof {
        assert(chars@.subrange(0, chars@.len() as int) =~= chars@);
    }
    string_from(chars, 0, chars.len())
}

/// Two strings with the same UTF-8 bytes are the same text.
proof fn lemma_bytes_determine_text(a: Seq<char>, b: Seq<char>)
    requires
        vstd::utf8::encode_utf8(a) == vstd::utf8::encode_utf8(b),
    ensures
        a == b,
{
    vstd::utf8::encode_utf8_decode_utf8(a);
    vstd::utf8::encode_utf8_decode_utf8(b);
}

/// Whether `a` and `b` are the same text.
pub fn str_eq(a: &str, b: &str) -> (r: bool)
    ensures
        r == (a@ == b@),
{
    let x = a.as_bytes();
    let y = b.as_bytes();
    if x.len() != y.len() {
        return false;
    }
    let mut i: usize = 0;
    while i < x.len()
        invariant
            x@ == vstd::utf8::encode_utf8(a@),
            y@ == vstd::utf8::encode_utf8(b@),
            x@.len() == y@.len(),
            i <= x@.len(),
            forall|k: int| 0 <= k < i ==> x@[k] == y@[k],
        decreases x@.len() - i,
    {
        if x[i] != y[i] {
            return false;
        }
        i += 1;
    }
    proof {
        assert(x@ =~= y@);
        lemma_bytes_determine_text(a@, b@);
    }
    true
}

/// The length of a text in bytes.
pub fn byte_len(s: &str) -> (r: u64)
    ensures
        r == vstd::utf8::encode_utf8(s@).len(),
{
    s.as_bytes().len() as u64
}

// ---------------------------------------------------------------------------
// Numbers
// ---------------------------------------------------------------------------

/// The digit that stands for `d` in bases up to sixteen, in lower case.
pub open spec fn digit_char(d: nat) -> char {
    if d < 10 {
        (48 + d) as char
    } else {
        (87 + d) as char
    }
}

/// `n` in base `base`, most significant digit first and without leading zeros.
pub open spec fn digits(n: nat, base: nat) -> Seq<char>
    decreases n,
{
    if base < 2 || n < base {
        seq![digit_char(n)]
    } else {
        proof {
            assert(n / base < n) by (nonlinear_arith)
                requires
                    n >= base,
                    base >= 2,
            ;
        }
        digits(n / base, base).push(digit_char(n % base))
    }
}

/// `n` in decimal.
pub open spec fn dec(n: nat) -> Seq<char> {
    digits(n, 10)
}

/// `n` in hexadecimal with the `0x` prefix.
pub open spec fn hex_prefixed(n: nat) -> Seq<char> {
    "0x"@ + digits(n, 16)
}

/// `n` in octal with the `0o` prefix.
pub open spec fn octal_prefixed(n: nat) -> Seq<char> {
    "0o"@ + digits(n, 8)
}

/// The `width` lowest hexadecimal digits of `n`, with leading zeros.
pub open spec fn hex_padded(n: nat, width: nat) -> Seq<char>
    decreases width,
{
    if width == 0 {
        Seq::empty()
    } else {
        hex_padded(n / 16, (width - 1) as nat).push(digit_char(n % 16))
    }
}

fn digit_of(d: u64) -> (r: char)
    requires
        d < 16,
    ensures
        r == digit_char(d as nat),
{
    if d < 10 {
        (48 + d as u8) as char
    } else {
        (87 + d as u8) as char
    }
}

/// `n` written in base `base`.
pub fn digits_text(n: u64, base: u64) -> (r: String)
    requires
        2 <= base <= 16,
    ensures
        r@ == digits(n as nat, base as nat),
    decreases n,
{
    if n < base {
        let mut out = String::new();
        out.push(digit_of(n));
        proof {
            assert(out@ =~= seq![digit_char(n as nat)]);
        }
        out
    } else {
        let rest: u64 = n / base;
        proof {
            assert(rest < n) by (nonlinear_arith)
                requires
                    rest == n / base,
                    base >= 2,
                    n >= base,
            ;
        }
        let mut out = digits_text(rest, base);
        out.push(digit_of(n % base));
        out
    }
}

/// `n` in decimal.
pub fn dec_text(n: u64) -> (r: String)
    ensures
        r@ == dec(n as nat),
{
    digits_text(n, 10)
}

/// Appends `n` in decimal.
pub fn push_dec(s: &mut String, n: u64)
    ensures
        final(s)@ == old(s)@ + dec(n as nat),
{
    let t = digits_text(n, 10);
    s.append(t.as_str());
}

/// Appends `n` in decimal.
pub fn push_dec_len(s: &mut String, n: usize)
    ensures
        final(s)@ == old(s)@ + dec(n as nat),
{
    push_dec(s, n as u64);
}

/// `n` in hexadecimal with the `0x` prefix.
pub fn hex_text(n: u64) -> (r: String)
    ensures
        r@ == hex_prefixed(n as nat),
{
    let mut out = "0x".to_owned();
    let t = digits_text(n, 16);
    out.append(t.as_str());
    out
}

/// Appends `n` in hexadecimal with the `0x` prefix.
pub fn push_hex(s: &mut String, n: u64)
    ensures
        final(s)@ == old(s)@ + hex_prefixed(n as nat),
{
    let t = hex_text(n);
    s.append(t.as_str());
}

/// Appends `n` in octal with the `0o` prefix.
pub fn push_octal(s: &mut String, n: u64)
    ensures
        final(s)@ == old(s)@ + octal_prefixed(n as nat),
{
    let mut out = "0o".to_owned();
    let t = digits_text(n, 8);
    out.append(t.as_str());
    s.append(out.as_str());
}

/// The `width` lowest hexadecimal digits of `n`, with leading zeros.
pub fn hex_padded_text(n: u64, width: usize) -> (r: String)
    ensures
        r@ == hex_padded(n as nat, width as nat),
    decreases width,
{
    if width == 0 {
        let out = String::new();
        out
    } else {
        let mut out = hex_padded_text(n / 16, width - 1);
        out.push(digit_of(n % 16));
        out
    }
}

// ---------------------------------------------------------------------------
// Quoting
// ---------------------------------------------------------------------------

/// How `Debug` shows a text: in quotes, with what is not printable escaped.
pub uninterp spec fn debug_of(s: Seq<char>) -> Seq<char>;

/// `format!("{:?}", ..)` of a text. Which characters it escapes goes by the
/// Unicode tables of the standard library.
#[verifier::external_body]
pub(crate) fn debug_text(s: &str) -> (r: String)
    ensures
        r@ == debug_of(s@),
{
    format!("{:?}", s)
}

// ---------------------------------------------------------------------------
// Order
// ---------------------------------------------------------------------------

/// Lexicographic order on byte strings.
pub open spec fn bytes_lt(a: Seq<u8>, b: Seq<u8>) -> bool
    decreases a.len(),
{
    &&& b.len() > 0
    &&& a.len() == 0 || a[0] < b[0] || (a[0] == b[0] && bytes_lt(a.drop_first(), b.drop_first()))
}

/// The order of strings: lexicographic by their UTF-8 bytes.
pub open spec fn text_lt(a: Seq<char>, b: Seq<char>) -> bool {
    bytes_lt(vstd::utf8::encode_utf8(a), vstd::utf8::encode_utf8(b))
}

proof fn lemma_bytes_lt_skip(a: Seq<u8>, b: Seq<u8>, i: int)
    requires
        0 <= i <= a.len(),
        i <= b.len(),
        forall|k: int| 0 <= k < i ==> a[k] == b[k],
    ensures
        bytes_lt(a, b) == bytes_lt(a.skip(i), b.skip(i)),
    decreases i,
{
    if i == 0 {
        assert(a.skip(0) =~= a);
        assert(b.skip(0) =~= b);
    } else {
        lemma_bytes_lt_skip(a.drop_first(), b.drop_first(), i - 1);
        assert(a.drop_first().skip(i - 1) =~= a.skip(i));
        assert(b.drop_first().skip(i - 1) =~= b.skip(i));
    }
}

proof fn lemma_bytes_lt_irreflexive(a: Seq<u8>)
    ensures
        !bytes_lt(a, a),
    decreases a.len(),
{
    if a.len() > 0 {
        lemma_bytes_lt_irreflexive(a.drop_first());
    }
}

proof fn lemma_bytes_lt_transitive(a: Seq<u8>, b: Seq<u8>, c: Seq<u8>)
    requires
        bytes_lt(a, b),
        bytes_lt(b, c),
    ensures
        bytes_lt(a, c),
    decreases a.len(),
{
    if a.len() > 0 && a[0] == b[0] && b[0] == c[0] {
        lemma_bytes_lt_transitive(a.drop_first(), b.drop_first(), c.drop_first());
    }
}

proof fn lemma_bytes_lt_total(a: Seq<u8>, b: Seq<u8>)
    ensures
        a == b || bytes_lt(a, b) || bytes_lt(b, a),
    decreases a.len(),
{
    if a.len() == 0 || b.len() == 0 {
        if a.len() == b.len() {
            assert(a =~= b);
        }
    } else if a[0] == b[0] {
        lemma_bytes_lt_total(a.drop_first(), b.drop_first());
        if a.drop_first() == b.drop_first() {
            assert(a =~= seq![a[0]] + a.drop_first());
            assert(b =~= seq![b[0]] + b.drop_first());
        }
    }
}

/// The order of strings is a strict total order.
pub proof fn law_text_order_is_strict_and_total(a: Seq<char>, b: Seq<char>, c: Seq<char>)
    ensures
        !text_lt(a, a),
        text_lt(a, b) && text_lt(b, c) ==> text_lt(a, c),
        a == b || text_lt(a, b) || text_lt(b, a),
        !(text_lt(a, b) && text_lt(b, a)),
{
    let x = vstd::utf8::encode_utf8(a);
    let y = vstd::utf8::encode_utf8(b);
    let z = vstd::utf8::encode_utf8(c);
    lemma_bytes_lt_irreflexive(x);
    if bytes_lt(x, y) && bytes_lt(y, z) {
        lemma_bytes_lt_transitive(x, y, z);
    }
    lemma_bytes_lt_total(x, y);
    if x == y {
        lemma_bytes_determine_text(a, b);
    }
    if bytes_lt(x, y) && bytes_lt(y, x) {
        lemma_bytes_lt_transitive(x, y, x);
    }
}

/// Whether `a` comes before `b`.
pub fn str_less(a: &str, b: &str) -> (r: bool)
    ensures
        r == text_lt(a@, b@),
{
    let x = a.as_bytes();
    let y = b.as_bytes();
    let mut i: usize = 0;
    while i < x.len() && i < y.len()
        invariant
            x@ == vstd::utf8::encode_utf8(a@),
            y@ == vstd::utf8::encode_utf8(b@),
            i <= x@.len(),
            i <= y@.len(),
            forall|k: int| 0 <= k < i ==> x@[k] == y@[k],
        decreases x@.len() - i,
    {
        if x[i] != y[i] {
            proof {
                lemma_bytes_lt_skip(x@, y@, i as int);
            }
            return x[i] < y[i];
        }
        i += 1;
    }
    proof {
        lemma_bytes_lt_skip(x@, y@, i as int);
    }
    i < y.len()
}

// ---------------------------------------------------------------------------
// Searching and rewriting
// ---------------------------------------------------------------------------

/// `prefix` is how `s` begins.
pub open spec fn starts_with(s: Seq<char>, prefix: Seq<char>) -> bool {
    prefix.len() <= s.len() && s.take(prefix.len() as int) == prefix
}

/// `s` with every occurrence of `from`, found from the left and without
/// overlap, replaced by `to`.
pub open spec fn replaced(s: Seq<char>, from: Seq<char>, to: Seq<char>) -> Seq<char>
    decreases s.len(),
{
    if from.len() == 0 || s.len() < from.len() {
        s
    } else if starts_with(s, from) {
        to + replaced(s.skip(from.len() as int), from, to)
    } else {
        seq![s[0]] + replaced(s.skip(1), from, to)
    }
}

/// `s` without the slashes at its end.
pub open spec fn without_trailing_slashes(s: Seq<char>) -> Seq<char>
    decreases s.len(),
{
    if s.len() > 0 && s.last() == '/' {
        without_trailing_slashes(s.drop_last())
    } else {
        s
    }
}

/// `s` without the slashes at its start.
pub open spec fn without_leading_slashes(s: Seq<char>) -> Seq<char>
    decreases s.len(),
{
    if s.len() > 0 && s[0] == '/' {
        without_leading_slashes(s.drop_first())
    } else {
        s
    }
}

/// Whether `chars` continues with `pattern` at `at`.
fn matches_at(chars: &Vec<char>, at: usize, pattern: &Vec<char>) -> (r: bool)
    requires
        at <= chars@.len(),
    ensures
        r == starts_with(chars@.skip(at as int), pattern@),
{
    let n: usize = pattern.len();
    let total: usize = chars.len();
    if total - at < n {
        return false;
    }
    let mut i: usize = 0;
    while i < n
        invariant
            n == pattern@.len(),
            total == chars@.len(),
            at + n <= total,
            i <= n,
            forall|k: int| 0 <= k < i ==> chars@[at + k] == pattern@[k],
        decreases n - i,
    {
        if chars[at + i] != pattern[i] {
            proof {
                assert(chars@.skip(at as int).take(n as int)[i as int] == chars@[at + i]);
            }
            return false;
        }
        i += 1;
    }
    proof {
        assert(chars@.skip(at as int).take(n as int) =~= pattern@);
    }
    true
}

/// `s` without `prefix` where it begins with it, and `s` itself where not.
pub open spec fn without_prefix(s: Seq<char>, prefix: Seq<char>) -> Seq<char> {
    if starts_with(s, prefix) {
        s.skip(prefix.len() as int)
    } else {
        s
    }
}

/// `s` without `prefix` where it begins with it, and `s` itself where not.
pub fn strip_prefix_or_all(s: &str, prefix: &str) -> (r: String)
    ensures
        r@ == without_prefix(s@, prefix@),
{
    let chars = chars_of(s);
    let pattern = chars_of(prefix);
    proof {
        assert(chars@.skip(0) =~= chars@);
    }
    if matches_at(&chars, 0, &pattern) {
        proof {
            assert(chars@.skip(pattern@.len() as int)
                =~= chars@.subrange(pattern@.len() as int, chars@.len() as int));
        }
        string_from(&chars, pattern.len(), chars.len())
    } else {
        string_of(&chars)
    }
}

/// `s` with every occurrence of `from` replaced by `to`.
pub fn replace_all(s: &str, from: &str, to: &str) -> (r: String)
    requires
        from@.len() > 0,
    ensures
        r@ == replaced(s@, from@, to@),
{
    let chars = chars_of(s);
    let pattern = chars_of(from);
    let n: usize = pattern.len();
    let mut out = String::new();
    let mut i: usize = 0;
    proof {
        assert(chars@.skip(0) =~= chars@);
        assert(out@ + replaced(chars@, from@, to@) =~= replaced(chars@, from@, to@));
    }
    while i < chars.len()
        invariant
            chars@ == s@,
            pattern@ == from@,
            n == from@.len(),
            n > 0,
            i <= chars@.len(),
            out@ + replaced(chars@.skip(i as int), from@, to@) == replaced(s@, from@, to@),
        decreases chars@.len() - i,
    {
        let ghost rest = chars@.skip(i as int);
        let ghost before = out@;
        if matches_at(&chars, i, &pattern) {
            out.append(to);
            proof {
                assert(rest.skip(n as int) =~= chars@.skip(i + n));
                assert(before + (to@ + replaced(rest.skip(n as int), from@, to@))
                    =~= out@ + replaced(rest.skip(n as int), from@, to@));
            }
            i += n;
        } else {
            out.push(chars[i]);
            proof {
                assert(rest[0] == chars@[i as int]);
                assert(rest.skip(1) =~= chars@.skip(i + 1));
                if rest.len() < n {
                    assert(rest.skip(1).len() < n);
                    assert(rest =~= seq![rest[0]] + rest.skip(1));
                }
                assert(before + (seq![rest[0]] + replaced(rest.skip(1), from@, to@))
                    =~= out@ + replaced(rest.skip(1), from@, to@));
            }
            i += 1;
        }
    }
    proof {
        assert(out@ + replaced(chars@.skip(i as int), from@, to@) =~= out@);
    }
    out
}

/// Where the part of `chars[from..to]` without trailing slashes ends.
fn end_without_slashes(chars: &Vec<char>, from: usize, to: usize) -> (r: usize)
    requires
        from <= to <= chars@.len(),
    ensures
        from <= r <= to,
        chars@.subrange(from as int, r as int) == without_trailing_slashes(
            chars@.subrange(from as int, to as int),
        ),
{
    let mut end: usize = to;
    while end > from && chars[end - 1] == '/'
        invariant
            from <= end <= to <= chars@.len(),
            without_trailing_slashes(chars@.subrange(from as int, end as int))
                == without_trailing_slashes(chars@.subrange(from as int, to as int)),
        decreases end,
    {
        proof {
            let s = chars@.subrange(from as int, end as int);
            assert(s.last() == chars@[end - 1]);
            assert(s.drop_last() =~= chars@.subrange(from as int, end - 1));
        }
        end -= 1;
    }
    proof {
        let s = chars@.subrange(from as int, end as int);
        if s.len() > 0 {
            assert(s.last() == chars@[end - 1]);
        }
    }
    end
}

/// `s` without the slashes at its end.
pub fn trim_end_slashes(s: &str) -> (r: String)
    ensures
        r@ == without_trailing_slashes(s@),
{
    let chars = chars_of(s);
    let end: usize = end_without_slashes(&chars, 0, chars.len());
    proof {
        assert(chars@.subrange(0, chars@.len() as int) =~= chars@);
    }
    string_from(&chars, 0, end)
}

/// `s` without the slashes at its start and at its end.
pub fn trim_slashes(s: &str) -> (r: String)
    ensures
        r@ == without_trailing_slashes(without_leading_slashes(s@)),
{
    let chars = chars_of(s);
    let mut start: usize = 0;
    proof {
        assert(chars@.skip(0) =~= chars@);
    }
    while start < chars.len() && chars[start] == '/'
        invariant
            chars@ == s@,
            start <= chars@.len(),
            without_leading_slashes(chars@.skip(start as int)) == without_leading_slashes(s@),
        decreases chars@.len() - start,
    {
        proof {
            assert(chars@.skip(start as int).drop_first() =~= chars@.skip(start + 1));
        }
        start += 1;
    }
    let end: usize = end_without_slashes(&chars, start, chars.len());
    proof {
        assert(chars@.subrange(start as int, chars@.len() as int) =~= chars@.skip(start as int));
    }
    string_from(&chars, start, end)
}

/// Whether `c` occurs in `s`.
pub fn contains_char(s: &str, c: char) -> (r: bool)
    ensures
        r == s@.contains(c),
{
    let chars = chars_of(s);
    let mut i: usize = 0;
    while i < chars.len()
        invariant
            chars@ == s@,
            i <= chars@.len(),
            forall|k: int| 0 <= k < i ==> s@[k] != c,
        decreases chars@.len() - i,
    {
        if chars[i] == c {
            proof {
                assert(s@[i as int] == c);
            }
            return true;
        }
        i += 1;
    }
    false
}

// ---------------------------------------------------------------------------
// Lists of texts
// ---------------------------------------------------------------------------

/// An optional text as its view.
pub open spec fn opt_text(text: Option<String>) -> Option<Seq<char>> {
    match text {
        Some(text) => Some(text@),
        None => None,
    }
}

/// A copy of an optional text.
pub fn copy_opt(text: &Option<String>) -> (r: Option<String>)
    ensures
        opt_text(r) == opt_text(*text),
{
    match text {
        Some(text) => Some(text.clone()),
        None => None,
    }
}

/// The views of a list of texts.
pub open spec fn texts(parts: Seq<String>) -> Seq<Seq<char>> {
    Seq::new(parts.len(), |i: int| parts[i]@)
}

/// The texts one after another, with `sep` between them.
pub open spec fn joined(parts: Seq<Seq<char>>, sep: Seq<char>) -> Seq<char>
    decreases parts.len(),
{
    if parts.len() == 0 {
        Seq::empty()
    } else if parts.len() == 1 {
        parts[0]
    } else {
        joined(parts.drop_last(), sep) + sep + parts.last()
    }
}

/// Puts the texts one after another, with `sep` between them.
pub fn join(parts: &Vec<String>, sep: &str) -> (r: String)
    ensures
        r@ == joined(texts(parts@), sep@),
{
    let mut out = String::new();
    let mut i: usize = 0;
    let ghost all = texts(parts@);
    proof {
        assert(all.take(0) =~= Seq::empty());
    }
    while i < parts.len()
        invariant
            i <= parts@.len(),
            all == texts(parts@),
            out@ == joined(all.take(i as int), sep@),
        decreases parts@.len() - i,
    {
        let ghost before = out@;
        if i > 0 {
            out.append(sep);
        }
        out.append(parts[i].as_str());
        proof {
            let next = all.take(i + 1);
            assert(next.drop_last() =~= all.take(i as int));
            assert(next.last() == parts@[i as int]@);
            if i == 0 {
                assert(out@ =~= parts@[0]@);
            } else {
                assert(out@ =~= before + sep@ + parts@[i as int]@);
            }
        }
        i += 1;
    }
    proof {
        assert(all.take(i as int) =~= all);
    }
    out
}

// ---------------------------------------------------------------------------
// Parts
// ---------------------------------------------------------------------------

/// The parts of a text between its slashes; one more than there are slashes.
pub open spec fn parts(s: Seq<char>) -> Seq<Seq<char>>
    decreases s.len(),
{
    if s.len() == 0 {
        seq![Seq::empty()]
    } else {
        let front = parts(s.drop_last());
        if s.last() == '/' {
            front.push(Seq::empty())
        } else {
            front.update(front.len() - 1, front.last().push(s.last()))
        }
    }
}

/// Splits a text at its slashes.
pub fn split_at_slashes(s: &str) -> (r: Vec<String>)
    ensures
        texts(r@) == parts(s@),
{
    let chars = chars_of(s);
    let mut out: Vec<String> = Vec::new();
    let mut part = String::new();
    let mut i: usize = 0;
    proof {
        assert(s@.take(0) =~= Seq::empty());
        assert(texts(out@).push(part@) =~= parts(s@.take(0)));
    }
    while i < chars.len()
        invariant
            chars@ == s@,
            i <= chars@.len(),
            texts(out@).push(part@) == parts(s@.take(i as int)),
        decreases chars@.len() - i,
    {
        let ghost front = texts(out@).push(part@);
        proof {
            assert(s@.take(i + 1).drop_last() =~= s@.take(i as int));
            assert(s@.take(i + 1).last() == chars@[i as int]);
        }
        if chars[i] == '/' {
            let ghost before = out@;
            let ghost seen = part@;
            out.push(part);
            part = String::new();
            proof {
                assert(texts(out@) =~= texts(before).push(seen));
                assert(part@ =~= Seq::<char>::empty());
                assert(texts(out@).push(part@) =~= front.push(Seq::empty()));
            }
        } else {
            let ghost seen = part@;
            part.push(chars[i]);
            proof {
                assert(texts(out@).push(part@) =~= front.update(
                    front.len() - 1,
                    front.last().push(chars@[i as int]),
                ));
            }
        }
        i += 1;
    }
    let ghost before = out@;
    let ghost seen = part@;
    out.push(part);
    proof {
        assert(s@.take(i as int) =~= s@);
        assert(texts(out@) =~= texts(before).push(seen));
    }
    out
}

/// A text is its parts with slashes between them, and no part has a slash.
pub proof fn law_parts_make_up_the_text(s: Seq<char>)
    ensures
        parts(s).len() > 0,
        joined(parts(s), "/"@) == s,
        forall|i: int, k: int|
            0 <= i < parts(s).len() && 0 <= k < parts(s)[i].len() ==> #[trigger] parts(s)[i][k]
                != '/',
    decreases s.len(),
{
    reveal_strlit("/");
    let all = parts(s);
    if s.len() == 0 {
        assert(joined(all, "/"@) =~= s);
    } else {
        let front = parts(s.drop_last());
        law_parts_make_up_the_text(s.drop_last());
        assert(s =~= s.drop_last().push(s.last()));
        if s.last() == '/' {
            assert(all.drop_last() =~= front);
            assert(joined(all, "/"@) =~= s);
        } else {
            assert(all.drop_last() =~= front.drop_last());
            assert(joined(all, "/"@) =~= s);
        }
    }
}

// ---------------------------------------------------------------------------
// Laws on texts
// ---------------------------------------------------------------------------

/// What a digit stands for; sixteen for what is none.
pub open spec fn digit_value(c: char) -> int {
    if '0' <= c <= '9' {
        c as int - '0' as int
    } else if 'a' <= c <= 'f' {
        c as int - 'a' as int + 10
    } else {
        16
    }
}

/// The number that `s` is in base `base`.
pub open spec fn number_in(s: Seq<char>, base: int) -> int
    decreases s.len(),
{
    if s.len() == 0 {
        0
    } else {
        number_in(s.drop_last(), base) * base + digit_value(s.last())
    }
}

/// A number that is written down reads back as itself, in digits of its base and without
/// leading zeros.
pub proof fn law_written_numbers_read_back(n: nat, base: nat)
    requires
        2 <= base <= 16,
    ensures
        number_in(digits(n, base), base as int) == n,
        digits(n, base).len() > 0,
        forall|i: int|
            0 <= i < digits(n, base).len() ==> digit_value(#[trigger] digits(n, base)[i]) < base,
        digits(n, base).len() > 1 ==> digits(n, base)[0] != '0',
    decreases n,
{
    reveal_with_fuel(number_in, 2);
    let s = digits(n, base);
    if n < base {
        assert(s.drop_last() =~= Seq::empty());
    } else {
        let rest = n / base;
        assert(0 < rest < n) by (nonlinear_arith)
            requires
                rest == n / base,
                n >= base,
                base >= 2,
        ;
        law_written_numbers_read_back(rest, base);
        let front = digits(rest, base);
        assert(s.drop_last() =~= front);
        vstd::arithmetic::div_mod::lemma_fundamental_div_mod(n as int, base as int);
        assert(rest * base == base * rest) by (nonlinear_arith);
        assert(0 <= n % base < base);
        assert forall|i: int| 0 <= i < s.len() implies digit_value(#[trigger] s[i]) < base by {
            if i < front.len() {
                assert(s[i] == front[i]);
            }
        }
        if front.len() == 1 {
            assert(front.drop_last() =~= Seq::empty());
            assert(number_in(front, base as int) == digit_value(front[0]));
        }
    }
}

/// Decimal, hexadecimal and octal numbers are told apart by what they begin with.
pub proof fn law_numbers_are_marked_by_their_base(n: nat)
    ensures
        number_in(dec(n), 10) == n,
        hex_prefixed(n).len() > 2 && hex_prefixed(n)[0] == '0' && hex_prefixed(n)[1] == 'x',
        number_in(hex_prefixed(n).skip(2), 16) == n,
        octal_prefixed(n).len() > 2 && octal_prefixed(n)[0] == '0' && octal_prefixed(n)[1] == 'o',
        number_in(octal_prefixed(n).skip(2), 8) == n,
{
    reveal_strlit("0x");
    reveal_strlit("0o");
    law_written_numbers_read_back(n, 10);
    law_written_numbers_read_back(n, 16);
    law_written_numbers_read_back(n, 8);
    assert(hex_prefixed(n).skip(2) =~= digits(n, 16));
    assert(octal_prefixed(n).skip(2) =~= digits(n, 8));
}

/// A padded number has as many digits as are asked for, and the lowest ones.
pub proof fn law_padded_numbers_read_back(n: nat, width: nat)
    ensures
        hex_padded(n, width).len() == width,
        number_in(hex_padded(n, width), 16) == n as int % vstd::arithmetic::power::pow(16, width),
        forall|i: int| 0 <= i < width ==> digit_value(#[trigger] hex_padded(n, width)[i]) < 16,
    decreases width,
{
    let s = hex_padded(n, width);
    vstd::arithmetic::power::lemma_pow0(16);
    if width > 0 {
        let fewer = (width - 1) as nat;
        law_padded_numbers_read_back(n / 16, fewer);
        let front = hex_padded(n / 16, fewer);
        assert(s.drop_last() =~= front);
        let unit = vstd::arithmetic::power::pow(16, fewer);
        vstd::arithmetic::power::lemma_pow_positive(16, fewer);
        assert(vstd::arithmetic::power::pow(16, width) == 16 * unit) by {
            reveal(vstd::arithmetic::power::pow);
        }
        vstd::arithmetic::div_mod::lemma_mod_breakdown(n as int, 16, unit);
        assert forall|i: int| 0 <= i < width implies digit_value(#[trigger] s[i]) < 16 by {
            if i < fewer {
                assert(s[i] == front[i]);
            }
        }
    }
}

/// `pattern` stands at `at` in `s`.
pub open spec fn occurs_at(s: Seq<char>, pattern: Seq<char>, at: int) -> bool {
    &&& 0 <= at <= s.len() - pattern.len()
    &&& forall|k: int| 0 <= k < pattern.len() ==> s[at + k] == #[trigger] pattern[k]
}

proof fn lemma_starts_with(s: Seq<char>, pattern: Seq<char>)
    ensures
        starts_with(s, pattern) <==> occurs_at(s, pattern, 0),
{
    if occurs_at(s, pattern, 0) {
        assert(s.take(pattern.len() as int) =~= pattern);
    }
    if starts_with(s, pattern) {
        assert forall|k: int| 0 <= k < pattern.len() implies s[0 + k] == #[trigger] pattern[k] by {
            assert(s.take(pattern.len() as int)[k] == s[k]);
        }
    }
}

/// A text in which a pattern does not occur stays as it is.
pub proof fn law_nothing_to_replace(s: Seq<char>, from: Seq<char>, to: Seq<char>)
    requires
        from.len() > 0,
        forall|at: int| !#[trigger] occurs_at(s, from, at),
    ensures
        replaced(s, from, to) == s,
    decreases s.len(),
{
    if s.len() >= from.len() {
        lemma_starts_with(s, from);
        assert(!occurs_at(s, from, 0));
        let rest = s.skip(1);
        assert forall|at: int| !#[trigger] occurs_at(rest, from, at) by {
            assert(!occurs_at(s, from, at + 1));
            if occurs_at(rest, from, at) {
                assert forall|k: int| 0 <= k < from.len() implies s[at + 1 + k]
                    == #[trigger] from[k] by {
                    assert(rest[at + k] == s[at + 1 + k]);
                }
            }
        }
        law_nothing_to_replace(rest, from, to);
        assert(seq![s[0]] + rest =~= s);
    }
}

/// The first occurrence of a pattern is replaced, what stands before it stays, and the rest
/// is gone through in the same way.
pub proof fn law_first_occurrence_is_replaced(
    s: Seq<char>,
    from: Seq<char>,
    to: Seq<char>,
    at: int,
)
    requires
        from.len() > 0,
        occurs_at(s, from, at),
        forall|before: int| 0 <= before < at ==> !#[trigger] occurs_at(s, from, before),
    ensures
        replaced(s, from, to) == s.take(at) + to + replaced(
            s.skip(at + from.len() as int),
            from,
            to,
        ),
    decreases s.len(),
{
    lemma_starts_with(s, from);
    let n = from.len() as int;
    if at == 0 {
        assert(s.take(0) + to + replaced(s.skip(n), from, to) =~= to + replaced(
            s.skip(n),
            from,
            to,
        ));
    } else {
        assert(!occurs_at(s, from, 0));
        let rest = s.skip(1);
        assert(occurs_at(rest, from, at - 1)) by {
            assert forall|k: int| 0 <= k < n implies rest[at - 1 + k] == #[trigger] from[k] by {
                assert(rest[at - 1 + k] == s[at + k]);
            }
        }
        assert forall|before: int| 0 <= before < at - 1 implies !#[trigger] occurs_at(
            rest,
            from,
            before,
        ) by {
            assert(!occurs_at(s, from, before + 1));
            if occurs_at(rest, from, before) {
                assert forall|k: int| 0 <= k < n implies s[before + 1 + k] == #[trigger] from[k] by {
                    assert(rest[before + k] == s[before + 1 + k]);
                }
            }
        }
        law_first_occurrence_is_replaced(rest, from, to, at - 1);
        assert(rest.skip(at - 1 + n) =~= s.skip(at + n));
        assert(seq![s[0]] + (rest.take(at - 1) + to + replaced(s.skip(at + n), from, to))
            =~= s.take(at) + to + replaced(s.skip(at + n), from, to));
    }
}

/// Only slashes are cut off at the end, and all of them.
pub proof fn law_trailing_slashes_are_cut(s: Seq<char>)
    ensures
        ({
            let kept = without_trailing_slashes(s);
            &&& kept.len() <= s.len()
            &&& kept == s.take(kept.len() as int)
            &&& kept.len() > 0 ==> kept[kept.len() - 1] != '/'
            &&& forall|i: int| kept.len() <= i < s.len() ==> #[trigger] s[i] == '/'
        }),
    decreases s.len(),
{
    let kept = without_trailing_slashes(s);
    if s.len() > 0 && s.last() == '/' {
        let shorter = s.drop_last();
        law_trailing_slashes_are_cut(shorter);
        assert(shorter.take(kept.len() as int) =~= s.take(kept.len() as int));
        assert forall|i: int| kept.len() <= i < s.len() implies #[trigger] s[i] == '/' by {
            if i < shorter.len() {
                assert(shorter[i] == s[i]);
            }
        }
    } else {
        assert(s.take(s.len() as int) =~= s);
    }
}

/// Only slashes are cut off at the start, and all of them.
pub proof fn law_leading_slashes_are_cut(s: Seq<char>)
    ensures
        ({
            let kept = without_leading_slashes(s);
            let cut = s.len() - kept.len();
            &&& cut >= 0
            &&& kept == s.skip(cut)
            &&& kept.len() > 0 ==> kept[0] != '/'
            &&& forall|i: int| 0 <= i < cut ==> #[trigger] s[i] == '/'
        }),
    decreases s.len(),
{
    let kept = without_leading_slashes(s);
    let cut = s.len() - kept.len();
    if s.len() > 0 && s[0] == '/' {
        let shorter = s.drop_first();
        law_leading_slashes_are_cut(shorter);
        assert(shorter.skip(cut - 1) =~= s.skip(cut));
        assert forall|i: int| 0 <= i < cut implies #[trigger] s[i] == '/' by {
            if i > 0 {
                assert(shorter[i - 1] == s[i]);
            }
        }
    } else {
        assert(s.skip(0) =~= s);
    }
}

/// A prefix is cut off where it stands, and nothing where it does not.
pub proof fn law_prefix_is_cut(prefix: Seq<char>, rest: Seq<char>, s: Seq<char>)
    ensures
        without_prefix(prefix + rest, prefix) == rest,
        !occurs_at(s, prefix, 0) ==> without_prefix(s, prefix) == s,
{
    lemma_starts_with(s, prefix);
    assert((prefix + rest).take(prefix.len() as int) =~= prefix);
    assert((prefix + rest).skip(prefix.len() as int) =~= rest);
}

/// Of two byte strings the one with the smaller byte where they first differ comes first,
/// and a shorter one before its continuations.
pub proof fn law_byte_order_goes_by_the_first_difference(a: Seq<u8>, b: Seq<u8>, at: int)
    requires
        0 <= at <= a.len(),
        at <= b.len(),
        forall|k: int| 0 <= k < at ==> a[k] == b[k],
    ensures
        at < a.len() && at < b.len() && a[at] < b[at] ==> bytes_lt(a, b) && !bytes_lt(b, a),
        at == a.len() && at < b.len() ==> bytes_lt(a, b) && !bytes_lt(b, a),
        at == a.len() && at == b.len() ==> !bytes_lt(a, b),
{
    lemma_bytes_lt_skip(a, b, at);
    lemma_bytes_lt_skip(b, a, at);
}

/// Texts that are joined are as long as they are together with what stands between them.
/// The first stands first, and each next one behind a separator.
pub proof fn law_joined_texts_stand_in_order(
    parts: Seq<Seq<char>>,
    next: Seq<char>,
    sep: Seq<char>,
)
    ensures
        joined(Seq::empty(), sep) == Seq::<char>::empty(),
        joined(seq![next], sep) == next,
        parts.len() > 0 ==> joined(parts.push(next), sep) == joined(parts, sep) + sep + next,
{
    assert(parts.push(next).drop_last() =~= parts);
}

} // verus!
