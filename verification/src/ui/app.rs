use vstd::prelude::*;
use vstd::string::StrSliceExecFns;

use crate::text::{decimal, digit_char, str_eq};
use crate::ui::control_panel::WorldSizeSelection;

verus! {

/// The configuration key of a world size selection.
pub fn world_size_key(selection: WorldSizeSelection) -> (k: &'static str)
    ensures
        k@ == (match selection {
            WorldSizeSelection::Small => "small"@,
            WorldSizeSelection::Medium => "medium"@,
            WorldSizeSelection::Large => "large"@,
            WorldSizeSelection::Custom => "custom"@,
        }),
{
    match selection {
        WorldSizeSelection::Small => "small",
        WorldSizeSelection::Medium => "medium",
        WorldSizeSelection::Large => "large",
        WorldSizeSelection::Custom => "custom",
    }
}

/// The selection stored under key `key`: `medium` and `large` name their
/// sizes, anything else falls back to the small world.
pub fn selection_from_key(key: &str) -> (s: WorldSizeSelection)
    ensures
        s == (if key@ == "medium"@ {
            WorldSizeSelection::Medium
        } else if key@ == "large"@ {
            WorldSizeSelection::Large
        } else {
            WorldSizeSelection::Small
        }),
{
    if str_eq(key, "medium") {
        WorldSizeSelection::Medium
    } else if str_eq(key, "large") {
        WorldSizeSelection::Large
    } else {
        WorldSizeSelection::Small
    }
}

/// `c` is a white-space character (the Unicode `White_Space` set, which is
/// what `str::trim` removes).
pub open spec fn is_white_space(c: char) -> bool {
    ||| ('\u{9}' <= c && c <= '\u{d}')
    ||| c == ' '
    ||| c == '\u{85}'
    ||| c == '\u{a0}'
    ||| c == '\u{1680}'
    ||| ('\u{2000}' <= c && c <= '\u{200a}')
    ||| c == '\u{2028}'
    ||| c == '\u{2029}'
    ||| c == '\u{202f}'
    ||| c == '\u{205f}'
    ||| c == '\u{3000}'
}

/// White space is exactly the Unicode `White_Space` property, listed by
/// code point: U+0009..U+000D, U+0020, U+0085, U+00A0, U+1680,
/// U+2000..U+200A, U+2028, U+2029, U+202F, U+205F and U+3000.
pub proof fn lemma_white_space_is_unicode(c: char)
    ensures
        is_white_space(c) <==> {
            let n = c as int;
            ||| 9 <= n <= 13
            ||| n == 32
            ||| n == 133
            ||| n == 160
            ||| n == 5760
            ||| 8192 <= n <= 8202
            ||| n == 8232
            ||| n == 8233
            ||| n == 8239
            ||| n == 8287
            ||| n == 12288
        },
{
}

fn white_space(c: char) -> (r: bool)
    ensures
        r == is_white_space(c),
{
    ('\u{9}' <= c && c <= '\u{d}') || c == ' ' || c == '\u{85}' || c == '\u{a0}' || c == '\u{1680}'
        || ('\u{2000}' <= c && c <= '\u{200a}') || c == '\u{2028}' || c == '\u{2029}' || c == '\u{202f}'
        || c == '\u{205f}' || c == '\u{3000}'
}

/// `s[start..end]` is `s` with leading and trailing white space removed.
pub open spec fn trim_bounds(s: Seq<char>, start: int, end: int) -> bool {
    &&& 0 <= start <= end <= s.len()
    &&& forall|i: int| 0 <= i < start ==> is_white_space(#[trigger] s[i])
    &&& forall|i: int| end <= i < s.len() ==> is_white_space(#[trigger] s[i])
    &&& start < end ==> !is_white_space(s[start]) && !is_white_space(s[end - 1])
}

/// The value of digit `c` in base `radix` (10 or 16), if it is one.
pub open spec fn digit_value(c: char, radix: nat) -> Option<nat> {
    if '0' <= c && c <= '9' && (c as nat) - 48 < radix {
        Some(((c as nat) - 48) as nat)
    } else if 'a' <= c && c <= 'z' && (c as nat) - 87 < radix {
        Some(((c as nat) - 87) as nat)
    } else if 'A' <= c && c <= 'Z' && (c as nat) - 55 < radix {
        Some(((c as nat) - 55) as nat)
    } else {
        None
    }
}

/// The number written by the digits `s` in base `radix`, if all are digits.
pub open spec fn digits_value(s: Seq<char>, radix: nat) -> Option<nat>
    decreases s.len(),
{
    if s.len() == 0 {
        Some(0)
    } else {
        match (digits_value(s.drop_last(), radix), digit_value(s.last(), radix)) {
            (Some(v), Some(d)) => Some(v * radix + d),
            _ => None,
        }
    }
}

/// How `u64::from_str_radix` reads `s`: an optional `+`, then at least one
/// digit of the base, with the value fitting in 64 bits.
pub open spec fn parse_u64(s: Seq<char>, radix: nat) -> Option<u64> {
    if s.len() == 0 || (s[0] == '+' && s.len() == 1) {
        None
    } else {
        let body = if s[0] == '+' { s.drop_first() } else { s };
        match digits_value(body, radix) {
            Some(v) => if v <= u64::MAX { Some(v as u64) } else { None },
            None => None,
        }
    }
}

/// The seed written in `t` (already trimmed): hexadecimal after a `0x` or
/// `0X` prefix; otherwise decimal, or hexadecimal when it is not decimal.
pub open spec fn seed_from_trimmed(t: Seq<char>) -> Option<u64> {
    if t.len() == 0 {
        None
    } else if t.len() >= 2 && t[0] == '0' && (t[1] == 'x' || t[1] == 'X') {
        parse_u64(t.subrange(2, t.len() as int), 16)
    } else {
        match parse_u64(t, 10) {
            Some(v) => Some(v),
            None => parse_u64(t, 16),
        }
    }
}

fn digit_of(c: char, radix: u32) -> (r: Option<u64>)
    requires
        radix == 10 || radix == 16,
    ensures
        match digit_value(c, radix as nat) {
            Some(d) => r == Some(d as u64),
            None => r is None,
        },
{
    let v = c as u32;
    if '0' <= c && c <= '9' && v - 48 < radix {
        Some((v - 48) as u64)
    } else if 'a' <= c && c <= 'z' && v - 87 < radix {
        Some((v - 87) as u64)
    } else if 'A' <= c && c <= 'Z' && v - 55 < radix {
        Some((v - 55) as u64)
    } else {
        None
    }
}

proof fn lemma_digits_value_prefix(s: Seq<char>, radix: nat, i: int)
    requires
        0 <= i < s.len(),
    ensures
        s.subrange(0, i + 1).drop_last() == s.subrange(0, i),
        s.subrange(0, i + 1).last() == s[i],
{
    assert(s.subrange(0, i + 1).drop_last() =~= s.subrange(0, i));
}

/// Once the digits read so far exceed `u64::MAX`, more digits do not bring
/// the value back.
proof fn lemma_digits_value_grows(s: Seq<char>, radix: nat, i: int, j: int)
    requires
        radix >= 1,
        0 <= i <= j <= s.len(),
        digits_value(s.subrange(0, i), radix) is Some,
        digits_value(s.subrange(0, j), radix) is Some,
    ensures
        digits_value(s.subrange(0, i), radix)->0 <= digits_value(s.subrange(0, j), radix)->0,
    decreases j - i,
{
    if i < j {
        lemma_digits_value_prefix(s, radix, j - 1);
        let prev = s.subrange(0, j - 1);
        assert(digits_value(prev, radix) is Some);
        lemma_digits_value_grows(s, radix, i, j - 1);
        let v = digits_value(prev, radix)->0;
        assert(v * radix >= v) by (nonlinear_arith)
            requires radix >= 1;
    }
}

/// Reads `s[from..to]` as `u64::from_str_radix` does.
fn parse_range(s: &str, from: usize, to: usize, radix: u32) -> (r: Option<u64>)
    requires
        from <= to <= s@.len(),
        radix == 10 || radix == 16,
    ensures
        r == parse_u64(s@.subrange(from as int, to as int), radix as nat),
{
    let ghost t = s@.subrange(from as int, to as int);
    if from == to {
        return None;
    }
    let mut i = from;
    if s.get_char(from) == '+' {
        if to - from == 1 {
            return None;
        }
        i = from + 1;
    }
    let ghost body = s@.subrange(i as int, to as int);
    proof {
        if s@[from as int] == '+' {
            assert(body =~= t.drop_first());
        } else {
            assert(body =~= t);
        }
    }
    let start = i;
    let mut value: u64 = 0;
    while i < to
        invariant
            from <= start <= i <= to <= s@.len(),
            body == s@.subrange(start as int, to as int),
            t == s@.subrange(from as int, to as int),
            t.len() > 0 && !(t[0] == '+' && t.len() == 1),
            body == (if t[0] == '+' { t.drop_first() } else { t }),
            radix == 10 || radix == 16,
            digits_value(body.subrange(0, (i - start) as int), radix as nat) == Some(value as nat),
        decreases to - i,
    {
        let c = s.get_char(i);
        let ghost k = (i - start) as int;
        proof { lemma_digits_value_prefix(body, radix as nat, k); }
        match digit_of(c, radix) {
            None => {
                proof {
                    assert(body[k] == c);
                    assert(digits_value(body.subrange(0, k + 1), radix as nat) is None);
                    lemma_digits_none_extends(body, radix as nat, k + 1);
                    assert(t.len() > 0 && !(t[0] == '+' && t.len() == 1));
                }
                return None;
            },
            Some(d) => {
                let next = match value.checked_mul(radix as u64) {
                    Some(m) => m.checked_add(d),
                    None => None,
                };
                match next {
                    Some(n) => {
                        value = n;
                    },
                    None => {
                        proof {
                            assert(body[k] == c);
                            assert(value as nat * radix as nat + d as nat > u64::MAX);
                            lemma_digits_overflow_extends(body, radix as nat, k + 1);
                            assert(t.len() > 0 && !(t[0] == '+' && t.len() == 1));
                        }
                        return None;
                    },
                }
            },
        }
        i = i + 1;
    }
    proof { assert(body.subrange(0, (to - start) as int) =~= body); }
    Some(value)
}

/// A non-digit makes every longer prefix unreadable.
proof fn lemma_digits_none_extends(s: Seq<char>, radix: nat, i: int)
    requires
        0 < i <= s.len(),
        digits_value(s.subrange(0, i), radix) is None,
    ensures
        digits_value(s, radix) is None,
    decreases s.len() - i,
{
    if i < s.len() {
        lemma_digits_value_prefix(s, radix, i);
        lemma_digits_none_extends(s, radix, i + 1);
    } else {
        assert(s.subrange(0, i) =~= s);
    }
}

/// A prefix whose value exceeds `u64::MAX` makes the whole value exceed it
/// (or the whole unreadable).
proof fn lemma_digits_overflow_extends(s: Seq<char>, radix: nat, i: int)
    requires
        radix >= 1,
        0 < i <= s.len(),
        digits_value(s.subrange(0, i), radix) is Some ==> digits_value(s.subrange(0, i), radix)->0 > u64::MAX,
    ensures
        digits_value(s, radix) is Some ==> digits_value(s, radix)->0 > u64::MAX,
{
    assert(s.subrange(0, s.len() as int) =~= s);
    if digits_value(s, radix) is Some {
        if digits_value(s.subrange(0, i), radix) is None {
            lemma_digits_none_extends(s, radix, i);
        } else {
            lemma_digits_value_grows(s, radix, i, s.len() as int);
        }
    }
}

/// Parses a seed typed by the user: surrounding white space is ignored; a
/// `0x`/`0X` prefix selects hexadecimal; otherwise decimal is tried first,
/// then hexadecimal. `None` when nothing valid was typed.
pub fn parse_seed_input(input: &str) -> (r: Option<u64>)
    ensures
        exists|a: int, b: int| trim_bounds(input@, a, b) && r == seed_from_trimmed(#[trigger] input@.subrange(a, b)),
{
    let n = input.unicode_len();
    let mut a: usize = 0;
    while a < n && white_space(input.get_char(a))
        invariant
            n == input@.len(),
            a <= n,
            forall|i: int| 0 <= i < a ==> is_white_space(#[trigger] input@[i]),
        decreases n - a,
    {
        a = a + 1;
    }
    let mut b: usize = n;
    while b > a && white_space(input.get_char(b - 1))
        invariant
            n == input@.len(),
            a <= b <= n,
            forall|i: int| b <= i < n ==> is_white_space(#[trigger] input@[i]),
            a < n ==> !is_white_space(input@[a as int]),
        decreases b - a,
    {
        b = b - 1;
    }
    let ghost t = input@.subrange(a as int, b as int);
    assert(trim_bounds(input@, a as int, b as int));
    if a == b {
        return None;
    }
    if b - a >= 2 && input.get_char(a) == '0' && (input.get_char(a + 1) == 'x' || input.get_char(a + 1) == 'X') {
        let r = parse_range(input, a + 2, b, 16);
        proof { assert(t.subrange(2, t.len() as int) =~= input@.subrange(a + 2, b as int)); }
        return r;
    }
    match parse_range(input, a, b, 10) {
        Some(v) => Some(v),
        None => parse_range(input, a, b, 16),
    }
}

/// The character of hexadecimal digit `d` (lower case).
pub open spec fn hex_char(d: nat) -> char {
    if d < 10 { digit_char(d) } else { (87 + d) as char }
}

/// The lower-case hexadecimal representation of `n`, without leading zeros.
pub open spec fn hex_lower(n: nat) -> Seq<char>
    decreases n,
{
    if n < 16 {
        seq![hex_char(n)]
    } else {
        hex_lower(n / 16).push(hex_char(n % 16))
    }
}

/// `n` written as `0x` followed by its lower-case hexadecimal numeral.
pub open spec fn hex_prefixed(n: nat) -> Seq<char> {
    seq!['0', 'x'] + hex_lower(n)
}

/// A decimal numeral reads back as its number, and holds only digits.
proof fn lemma_decimal_digits(n: nat)
    ensures
        digits_value(decimal(n), 10) == Some(n),
        decimal(n).len() >= 1,
        forall|i: int| 0 <= i < decimal(n).len() ==> '0' <= #[trigger] decimal(n)[i] <= '9',
    decreases n,
{
    let d = n % 10;
    let c = digit_char(d);
    assert(c as nat == 48 + d);
    assert('0' <= c && c <= '9');
    assert(digit_value(c, 10) == Some(d));
    if n >= 10 {
        lemma_decimal_digits(n / 10);
        let s = decimal(n);
        assert(s.drop_last() == decimal(n / 10));
        assert(s.last() == digit_char(d));
        assert((n / 10) * 10 + d == n);
        assert(digits_value(s, 10) == Some(((n / 10) * 10 + d) as nat));
        assert forall|i: int| 0 <= i < s.len() implies '0' <= #[trigger] s[i] <= '9' by {
            if i < s.len() - 1 {
                assert(s[i] == decimal(n / 10)[i]);
            }
        }
    } else {
        assert(decimal(n).drop_last() =~= Seq::<char>::empty());
        assert(digits_value(decimal(n).drop_last(), 10) == Some(0nat));
        assert(decimal(n).last() == c);
    }
}

/// A lower-case hexadecimal numeral reads back as its number, and holds
/// only hexadecimal digits.
proof fn lemma_hex_digits(n: nat)
    ensures
        digits_value(hex_lower(n), 16) == Some(n),
        hex_lower(n).len() >= 1,
        forall|i: int| 0 <= i < hex_lower(n).len() ==> ('0' <= #[trigger] hex_lower(n)[i] <= '9' || 'a'
            <= hex_lower(n)[i] <= 'f'),
    decreases n,
{
    let d = n % 16;
    let c = hex_char(d);
    if d < 10 {
        assert(c as nat == 48 + d);
        assert('0' <= c && c <= '9');
    } else {
        assert(c as nat == 87 + d);
        assert('a' <= c && c <= 'f');
    }
    assert(digit_value(c, 16) == Some(d));
    if n >= 16 {
        lemma_hex_digits(n / 16);
        let s = hex_lower(n);
        assert(s.drop_last() == hex_lower(n / 16));
        assert(s.last() == hex_char(d));
        assert((n / 16) * 16 + d == n);
        assert(digits_value(s, 16) == Some(((n / 16) * 16 + d) as nat));
        assert forall|i: int| 0 <= i < s.len() implies ('0' <= #[trigger] s[i] <= '9' || 'a' <= s[i] <= 'f') by {
            if i < s.len() - 1 {
                assert(s[i] == hex_lower(n / 16)[i]);
            }
        }
    } else {
        assert(hex_lower(n).drop_last() =~= Seq::<char>::empty());
        assert(digits_value(hex_lower(n).drop_last(), 16) == Some(0nat));
        assert(hex_lower(n).last() == c);
    }
}

/// Text without surrounding white space is trimmed to itself.
proof fn lemma_trim_bounds_whole(s: Seq<char>, a: int, b: int)
    requires
        s.len() >= 1,
        !is_white_space(s[0]),
        !is_white_space(s[s.len() - 1]),
        trim_bounds(s, a, b),
    ensures
        a == 0,
        b == s.len(),
{
    if a > 0 {
        assert(is_white_space(s[0]));
    }
    if b < s.len() {
        assert(is_white_space(s[s.len() - 1]));
    }
}

/// A numeral holding a character that is no decimal digit is not decimal.
proof fn lemma_not_decimal(s: Seq<char>, i: int)
    requires
        0 <= i < s.len(),
        digit_value(s[i], 10) is None,
    ensures
        digits_value(s, 10) is None,
    decreases s.len(),
{
    if i < s.len() - 1 {
        assert(s.drop_last()[i] == s[i]);
        lemma_not_decimal(s.drop_last(), i);
    }
}

/// Every `u64` typed in decimal reads back as itself: the seed parsed from
/// its decimal numeral (trimmed) is the number.
pub proof fn lemma_seed_decimal_round_trip(v: u64)
    ensures
        forall|a: int, b: int| #[trigger] trim_bounds(decimal(v as nat), a, b) ==> seed_from_trimmed(
            decimal(v as nat).subrange(a, b),
        ) == Some(v),
{
    let s = decimal(v as nat);
    lemma_decimal_digits(v as nat);
    assert(!is_white_space(s[0]) && !is_white_space(s[s.len() - 1]));
    assert forall|a: int, b: int| #[trigger] trim_bounds(s, a, b) implies seed_from_trimmed(s.subrange(a, b))
        == Some(v) by {
        lemma_trim_bounds_whole(s, a, b);
        assert(s.subrange(a, b) =~= s);
        assert(s[0] != '+');
        if s.len() >= 2 {
            assert(s[1] != 'x' && s[1] != 'X');
        }
    }
}

/// Every `u64` typed in hexadecimal after `0x` reads back as itself.
pub proof fn lemma_seed_hex_prefix_round_trip(v: u64)
    ensures
        forall|a: int, b: int| #[trigger] trim_bounds(hex_prefixed(v as nat), a, b) ==> seed_from_trimmed(
            hex_prefixed(v as nat).subrange(a, b),
        ) == Some(v),
{
    let h = hex_lower(v as nat);
    let s = hex_prefixed(v as nat);
    lemma_hex_digits(v as nat);
    assert(s[s.len() - 1] == h[h.len() - 1]);
    assert(!is_white_space(s[0]) && !is_white_space(s[s.len() - 1]));
    assert forall|a: int, b: int| #[trigger] trim_bounds(s, a, b) implies seed_from_trimmed(s.subrange(a, b))
        == Some(v) by {
        lemma_trim_bounds_whole(s, a, b);
        assert(s.subrange(a, b) =~= s);
        assert(s.subrange(2, s.len() as int) =~= h);
        assert(h[0] != '+');
    }
}

/// A `u64` typed in hexadecimal without prefix reads back as itself when
/// its numeral holds a letter (a numeral of decimal digits only is read as
/// decimal).
pub proof fn lemma_seed_bare_hex_round_trip(v: u64)
    requires
        exists|i: int| 0 <= i < hex_lower(v as nat).len() && 'a' <= #[trigger] hex_lower(v as nat)[i] <= 'f',
    ensures
        forall|a: int, b: int| #[trigger] trim_bounds(hex_lower(v as nat), a, b) ==> seed_from_trimmed(
            hex_lower(v as nat).subrange(a, b),
        ) == Some(v),
{
    let s = hex_lower(v as nat);
    lemma_hex_digits(v as nat);
    let i = choose|i: int| 0 <= i < s.len() && 'a' <= #[trigger] s[i] <= 'f';
    lemma_not_decimal(s, i);
    assert(!is_white_space(s[0]) && !is_white_space(s[s.len() - 1]));
    assert forall|a: int, b: int| #[trigger] trim_bounds(s, a, b) implies seed_from_trimmed(s.subrange(a, b))
        == Some(v) by {
        lemma_trim_bounds_whole(s, a, b);
        assert(s.subrange(a, b) =~= s);
        assert(s[0] != '+');
        if s.len() >= 2 {
            assert(s[1] != 'x' && s[1] != 'X');
        }
    }
}

/// Hexadecimal digit `d` (below 16) in upper case.
pub open spec fn hex_char_upper(d: nat) -> char {
    if d < 10 { digit_char(d) } else { (55 + d) as char }
}

/// The upper-case hexadecimal representation of `n`, without leading zeros.
pub open spec fn hex_upper(n: nat) -> Seq<char>
    decreases n,
{
    if n < 16 {
        seq![hex_char_upper(n)]
    } else {
        hex_upper(n / 16).push(hex_char_upper(n % 16))
    }
}

/// An upper-case hexadecimal numeral reads back as its number, and holds
/// only hexadecimal digits.
proof fn lemma_hex_upper_digits(n: nat)
    ensures
        digits_value(hex_upper(n), 16) == Some(n),
        hex_upper(n).len() >= 1,
        forall|i: int| 0 <= i < hex_upper(n).len() ==> ('0' <= #[trigger] hex_upper(n)[i] <= '9' || 'A'
            <= hex_upper(n)[i] <= 'F'),
    decreases n,
{
    let d = n % 16;
    let c = hex_char_upper(d);
    if d < 10 {
        assert(c as nat == 48 + d);
    } else {
        assert(c as nat == 55 + d);
    }
    assert(digit_value(c, 16) == Some(d));
    if n >= 16 {
        lemma_hex_upper_digits(n / 16);
        let s = hex_upper(n);
        assert(s.drop_last() == hex_upper(n / 16));
        assert(s.last() == c);
        assert((n / 16) * 16 + d == n);
        assert(digits_value(s, 16) == Some(((n / 16) * 16 + d) as nat));
        assert forall|i: int| 0 <= i < s.len() implies ('0' <= #[trigger] s[i] <= '9' || 'A' <= s[i] <= 'F') by {
            if i < s.len() - 1 {
                assert(s[i] == hex_upper(n / 16)[i]);
            }
        }
    } else {
        assert(hex_upper(n).drop_last() =~= Seq::<char>::empty());
        assert(digits_value(hex_upper(n).drop_last(), 16) == Some(0nat));
        assert(hex_upper(n).last() == c);
    }
}

/// `n` written as `0` and `x` followed by its upper-case hexadecimal numeral.
pub open spec fn hex_upper_prefixed(n: nat, x: char) -> Seq<char> {
    seq!['0', x] + hex_upper(n)
}

/// Every `u64` typed in upper-case hexadecimal after `0x` or `0X` reads
/// back as itself.
pub proof fn lemma_seed_hex_upper_round_trip(v: u64, x: char)
    requires
        x == 'x' || x == 'X',
    ensures
        forall|a: int, b: int| #[trigger] trim_bounds(hex_upper_prefixed(v as nat, x), a, b) ==> seed_from_trimmed(
            hex_upper_prefixed(v as nat, x).subrange(a, b),
        ) == Some(v),
{
    let h = hex_upper(v as nat);
    let s = hex_upper_prefixed(v as nat, x);
    lemma_hex_upper_digits(v as nat);
    assert(s[s.len() - 1] == h[h.len() - 1]);
    assert(!is_white_space(s[0]) && !is_white_space(s[s.len() - 1]));
    assert forall|a: int, b: int| #[trigger] trim_bounds(s, a, b) implies seed_from_trimmed(s.subrange(a, b))
        == Some(v) by {
        lemma_trim_bounds_whole(s, a, b);
        assert(s.subrange(a, b) =~= s);
        assert(s.subrange(2, s.len() as int) =~= h);
        assert(h[0] != '+');
    }
}

/// A numeral of decimal digits has a hexadecimal reading at least as large
/// as its decimal one.
proof fn lemma_hex_reading_not_smaller(s: Seq<char>)
    requires
        forall|i: int| 0 <= i < s.len() ==> '0' <= #[trigger] s[i] <= '9',
    ensures
        digits_value(s, 10) is Some,
        digits_value(s, 16) is Some,
        digits_value(s, 10)->0 <= digits_value(s, 16)->0,
    decreases s.len(),
{
    if s.len() > 0 {
        let t = s.drop_last();
        assert forall|i: int| 0 <= i < t.len() implies '0' <= #[trigger] t[i] <= '9' by {
            assert(t[i] == s[i]);
        }
        lemma_hex_reading_not_smaller(t);
        let c = s.last();
        assert('0' <= s[s.len() - 1] <= '9');
        let d = digits_value(t, 10)->0;
        let h = digits_value(t, 16)->0;
        assert(d * 10 <= h * 16) by (nonlinear_arith)
            requires 0 <= d <= h;
    }
}

/// Text made of decimal digits only is always read as decimal: the seed is
/// its decimal value, or nothing when that does not fit in 64 bits.
pub proof fn lemma_seed_digits_read_as_decimal(t: Seq<char>)
    requires
        t.len() >= 1,
        forall|i: int| 0 <= i < t.len() ==> '0' <= #[trigger] t[i] <= '9',
    ensures
        seed_from_trimmed(t) == parse_u64(t, 10),
{
    lemma_hex_reading_not_smaller(t);
    assert(t[0] != '+');
    if t.len() >= 2 {
        assert('0' <= t[1] <= '9');
    }
}

} // verus!
