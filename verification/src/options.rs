//! The options of a command, as its user gave them.
use crate::text::chars_of;
use vstd::prelude::*;

verus! {

/// The options of all commands. Each command reads those that concern it.
#[derive(Debug)]
pub struct Options {
    pub path: Option<String>,
    pub path_template: Option<String>,
    pub fsoid: Option<u64>,
    pub snapshot: Option<String>,
    pub snapshot_xid: Option<u64>,
    pub format: Option<String>,
    pub output: Option<String>,
    pub manifest: Option<String>,
    pub output_root: Option<String>,
    pub best_effort: bool,
    pub overwrite: bool,
    pub dry_run: bool,
    pub raw_extents: bool,
    pub fallback_history: bool,
    pub extents: bool,
    pub xattrs: bool,
    pub records: bool,
    pub json: bool,
}

impl Default for Options {
    fn default() -> (r: Options)
        ensures
            r == (Options {
                path: None,
                path_template: None,
                fsoid: None,
                snapshot: None,
                snapshot_xid: None,
                format: None,
                output: None,
                manifest: None,
                output_root: None,
                best_effort: false,
                overwrite: false,
                dry_run: false,
                raw_extents: false,
                fallback_history: false,
                extents: false,
                xattrs: false,
                records: false,
                json: false,
            }),
    {
        Options {
            path: None,
            path_template: None,
            fsoid: None,
            snapshot: None,
            snapshot_xid: None,
            format: None,
            output: None,
            manifest: None,
            output_root: None,
            best_effort: false,
            overwrite: false,
            dry_run: false,
            raw_extents: false,
            fallback_history: false,
            extents: false,
            xattrs: false,
            records: false,
            json: false,
        }
    }
}

// ---------------------------------------------------------------------------
// Numbers
// ---------------------------------------------------------------------------

/// The value of a digit in bases up to sixteen.
pub open spec fn digit_value(c: char) -> Option<int> {
    if '0' <= c <= '9' {
        Some(c as int - '0' as int)
    } else if 'a' <= c <= 'f' {
        Some(c as int - 'a' as int + 10)
    } else if 'A' <= c <= 'F' {
        Some(c as int - 'A' as int + 10)
    } else {
        None
    }
}

/// The number that the digits of `s` stand for in base `base`; none where a
/// character is no digit.
pub open spec fn digits_value(s: Seq<char>, base: int) -> Option<int>
    decreases s.len(),
{
    if s.len() == 0 {
        Some(0)
    } else {
        match (digits_value(s.drop_last(), base), digit_value(s.last())) {
            (Some(front), Some(digit)) => if digit < base {
                Some(front * base + digit)
            } else {
                None
            },
            _ => None,
        }
    }
}

/// The 64-bit number that a non-empty run of digits stands for.
pub open spec fn number_in(s: Seq<char>, base: int) -> Option<u64> {
    match digits_value(s, base) {
        Some(n) => if s.len() > 0 && n <= u64::MAX {
            Some(n as u64)
        } else {
            None
        },
        None => None,
    }
}

/// The number that a text stands for: hexadecimal behind `0x` or `0X`, decimal
/// otherwise.
pub open spec fn number_of(s: Seq<char>) -> Option<u64> {
    if s.len() >= 2 && s[0] == '0' && (s[1] == 'x' || s[1] == 'X') {
        number_in(s.skip(2), 16)
    } else {
        number_in(s, 10)
    }
}

proof fn lemma_digits_value(s: Seq<char>, i: int, base: int)
    requires
        base > 1,
        0 <= i <= s.len(),
    ensures
        digits_value(s.take(i), base) matches Some(n) ==> n >= 0,
        digits_value(s.take(i), base) is None ==> digits_value(s, base) is None,
        digits_value(s, base) matches Some(n) ==> n >= digits_value(s.take(i), base)->Some_0,
    decreases s.len() - i, i,
{
    if i < s.len() {
        let next = s.take(i + 1);
        assert(next.drop_last() =~= s.take(i));
        lemma_digits_value(s, i + 1, base);
        lemma_digits_sign(s.take(i), base);
        match (digits_value(s.take(i), base), digit_value(next.last())) {
            (Some(front), Some(digit)) => {
                assert(front * base + digit >= front) by (nonlinear_arith)
                    requires
                        front >= 0,
                        base > 1,
                        digit >= 0,
                ;
            },
            _ => {},
        }
    } else {
        assert(s.take(i) =~= s);
        lemma_digits_sign(s, base);
    }
}

proof fn lemma_digits_sign(s: Seq<char>, base: int)
    requires
        base > 1,
    ensures
        digits_value(s, base) matches Some(n) ==> n >= 0,
    decreases s.len(),
{
    if s.len() > 0 {
        lemma_digits_sign(s.drop_last(), base);
        match digits_value(s.drop_last(), base) {
            Some(front) => {
                assert(front * base >= 0) by (nonlinear_arith)
                    requires
                        front >= 0,
                        base > 1,
                ;
            },
            None => {},
        }
    }
}

fn value_of_digit(c: char) -> (r: Option<u64>)
    ensures
        match digit_value(c) {
            Some(d) => r == Some(d as u64) && 0 <= d < 16,
            None => r is None,
        },
{
    let code: u32 = c as u32;
    if 0x30 <= code && code <= 0x39 {
        Some((code - 0x30) as u64)
    } else if 0x61 <= code && code <= 0x66 {
        Some((code - 0x61 + 10) as u64)
    } else if 0x41 <= code && code <= 0x46 {
        Some((code - 0x41 + 10) as u64)
    } else {
        None
    }
}

fn number_from(chars: &Vec<char>, from: usize, base: u64) -> (r: Option<u64>)
    requires
        from <= chars@.len(),
        base == 10 || base == 16,
    ensures
        r == number_in(chars@.skip(from as int), base as int),
{
    let ghost s = chars@.skip(from as int);
    if from == chars.len() {
        return None;
    }
    let mut value: u64 = 0;
    let mut i: usize = from;
    proof {
        assert(s.take(0) =~= Seq::empty());
    }
    while i < chars.len()
        invariant
            from <= i <= chars@.len(),
            base == 10 || base == 16,
            s == chars@.skip(from as int),
            digits_value(s.take(i - from), base as int) == Some(value as int),
        decreases chars@.len() - i,
    {
        proof {
            let next = s.take(i + 1 - from);
            assert(next.drop_last() =~= s.take(i - from));
            assert(next.last() == chars@[i as int]);
            lemma_digits_value(s, i + 1 - from, base as int);
        }
        match value_of_digit(chars[i]) {
            None => return None,
            Some(digit) => {
                if digit >= base {
                    return None;
                }
                if value > (u64::MAX - digit) / base {
                    proof {
                        assert(value * base + digit > u64::MAX) by (nonlinear_arith)
                            requires
                                value > (u64::MAX - digit) / (base as int),
                                base == 10 || base == 16,
                                0 <= digit < base,
                        ;
                    }
                    return None;
                }
                proof {
                    assert(value * base + digit <= u64::MAX) by (nonlinear_arith)
                        requires
                            value <= (u64::MAX - digit) / (base as int),
                            base == 10 || base == 16,
                            0 <= digit < base,
                    ;
                }
                value = value * base + digit;
            },
        }
        i += 1;
    }
    proof {
        assert(s.take(i - from) =~= s);
    }
    Some(value)
}

/// Reads a number, hexadecimal behind `0x` or `0X`, decimal otherwise.
pub fn parse_number(text: &str) -> (r: Option<u64>)
    ensures
        r == number_of(text@),
{
    let chars = chars_of(text);
    if chars.len() >= 2 && chars[0] == '0' && (chars[1] == 'x' || chars[1] == 'X') {
        number_from(&chars, 2, 16)
    } else {
        proof {
            assert(text@.skip(0) =~= text@);
        }
        number_from(&chars, 0, 10)
    }
}

// ---------------------------------------------------------------------------
// Laws
// ---------------------------------------------------------------------------

/// Each further digit counts in units of the one before it; a text with anything else in it
/// is no number, and neither is one without digits.
pub proof fn law_digits_count_by_their_place(s: Seq<char>, c: char, base: int)
    requires
        base == 10 || base == 16,
    ensures
        digits_value(Seq::empty(), base) == Some(0int),
        number_in(Seq::empty(), base) is None,
        '0' <= c <= '9' && digits_value(s, base) is Some ==> digits_value(s.push(c), base)
            == Some(digits_value(s, base)->Some_0 * base + (c as int - '0' as int)),
        base == 16 && 'a' <= c <= 'f' && digits_value(s, base) is Some ==> digits_value(
            s.push(c),
            base,
        ) == Some(digits_value(s, base)->Some_0 * base + (c as int - 'a' as int + 10)),
        base == 16 && 'A' <= c <= 'F' && digits_value(s, base) is Some ==> digits_value(
            s.push(c),
            base,
        ) == Some(digits_value(s, base)->Some_0 * base + (c as int - 'A' as int + 10)),
        !('0' <= c <= '9') && !(base == 16 && ('a' <= c <= 'f' || 'A' <= c <= 'F'))
            ==> digits_value(s.push(c), base) is None,
        digits_value(s, base) is None ==> digits_value(s.push(c), base) is None,
        number_in(s.push(c), base) matches Some(n) ==> digits_value(s.push(c), base) == Some(
            n as int,
        ),
        digits_value(s.push(c), base) matches Some(n) ==> (number_in(s.push(c), base) is Some
            <==> n <= 0xffff_ffff_ffff_ffff),
{
    assert(s.push(c).drop_last() =~= s);
    lemma_digits_sign(s.push(c), base);
}

proof fn lemma_written_digits(n: nat, base: nat)
    requires
        base == 10 || base == 16,
    ensures
        digits_value(crate::text::digits(n, base), base as int) == Some(n as int),
        crate::text::digits(n, base).len() > 0,
        base == 10 ==> forall|i: int|
            0 <= i < crate::text::digits(n, base).len() ==> '0' <= #[trigger]
            crate::text::digits(n, base)[i] <= '9',
    decreases n,
{
    let s = crate::text::digits(n, base);
    if n < base {
        reveal_with_fuel(digits_value, 2);
        assert(s.drop_last() =~= Seq::empty());
    } else {
        let rest = n / base;
        assert(rest < n) by (nonlinear_arith)
            requires
                rest == n / base,
                n >= base,
                base >= 2,
        ;
        lemma_written_digits(rest, base);
        let front = crate::text::digits(rest, base);
        assert(s.drop_last() =~= front);
        vstd::arithmetic::div_mod::lemma_fundamental_div_mod(n as int, base as int);
        assert(rest * base == base * rest) by (nonlinear_arith);
        if base == 10 {
            assert forall|i: int| 0 <= i < s.len() implies '0' <= #[trigger] s[i] <= '9' by {
                if i < front.len() {
                    assert(s[i] == front[i]);
                }
            }
        }
    }
}

/// A number that was written down in decimal, or in hexadecimal behind its prefix, is read
/// as itself.
pub proof fn law_written_numbers_are_read(n: u64)
    ensures
        number_of(crate::text::dec(n as nat)) == Some(n),
        number_of(crate::text::hex_prefixed(n as nat)) == Some(n),
        number_of(seq!['0', 'X'] + crate::text::digits(n as nat, 16)) == Some(n),
{
    lemma_written_digits(n as nat, 10);
    lemma_written_digits(n as nat, 16);
    let d = crate::text::dec(n as nat);
    assert(d.len() >= 2 ==> '0' <= d[1] <= '9');
    reveal_strlit("0x");
    let h = crate::text::hex_prefixed(n as nat);
    assert(h.skip(2) =~= crate::text::digits(n as nat, 16));
    let x = seq!['0', 'X'] + crate::text::digits(n as nat, 16);
    assert(x.skip(2) =~= crate::text::digits(n as nat, 16));
}

/// Only a prefix makes a number hexadecimal.
pub proof fn law_prefix_tells_the_base(s: Seq<char>)
    ensures
        s.len() >= 2 && s[0] == '0' && (s[1] == 'x' || s[1] == 'X') ==> number_of(s) == number_in(
            s.skip(2),
            16,
        ),
        s.len() < 2 || s[0] != '0' || (s[1] != 'x' && s[1] != 'X') ==> number_of(s) == number_in(
            s,
            10,
        ),
{
}

} // verus!
