//! Text as a sequence of characters: numbers in a radix, splitting, trimming
//! and padding.

use vstd::prelude::*;
use vstd::slice::slice_subrange;
use vstd::utf8::{
    decode_utf8, encode_scalar, encode_utf8, has_width_1_encoding, valid_utf8,
};

verus! {

/// `String::push` appends the character at the end of the string.
pub assume_specification[ String::push ](s: &mut String, c: char)
    ensures
        final(s)@ == old(s)@.push(c),
;

/// What `String::from_utf8_lossy` makes of bytes.
pub uninterp spec fn utf8_lossy(s: Seq<u8>) -> Seq<char>;

/// `String::from_utf8_lossy`. Valid UTF-8 is decoded; what is put in place of
/// invalid bytes is left to it.
#[verifier::external_body]
pub(crate) fn lossy(s: &[u8]) -> (r: String)
    ensures
        r@ == utf8_lossy(s@),
        valid_utf8(s@) ==> r@ == decode_utf8(s@),
{
    String::from_utf8_lossy(s).into_owned()
}

/// `std::str::from_utf8`. It reads bytes as the text that they encode, and
/// refuses just the bytes that are not valid UTF-8.
#[verifier::external_body]
pub(crate) fn strict(s: &[u8]) -> (r: Option<String>)
    ensures
        match r {
            Some(text) => valid_utf8(s@) && text@ == decode_utf8(s@),
            None => !valid_utf8(s@),
        },
{
    match std::str::from_utf8(s) {
        Ok(text) => Some(text.to_owned()),
        Err(_) => None,
    }
}

/// Bytes as text: decoded where they are valid UTF-8, and with the parts that
/// are not replaced where they are not.
pub open spec fn decoded(s: Seq<u8>) -> Seq<char> {
    if valid_utf8(s) {
        decode_utf8(s)
    } else {
        utf8_lossy(s)
    }
}

/// The view of bytes that may be missing.
pub open spec fn bytes_view(b: Option<Vec<u8>>) -> Option<Seq<u8>> {
    match b {
        Some(v) => Some(v@),
        None => None,
    }
}

/// The view of a text that may be missing.
pub open spec fn text_view(s: Option<String>) -> Option<Seq<char>> {
    match s {
        Some(v) => Some(v@),
        None => None,
    }
}

/// The characters of a string, one by one.
pub fn chars_of(s: &str) -> (r: Vec<char>)
    ensures
        r@ == s@,
{
    let mut out: Vec<char> = Vec::new();
    for c in it: s.chars()
        invariant
            out@ == it.seq().take(it.index() as int),
            it.seq() == s@,
    {
        out.push(c);
    }
    assert(s@.take(s@.len() as int) =~= s@);
    out
}

/// The string made of the given characters.
pub fn string_of(s: &[char]) -> (r: String)
    ensures
        r@ == s@,
{
    let mut out: String = String::new();
    let mut i: usize = 0;
    while i < s.len()
        invariant
            i <= s@.len(),
            out@ == s@.take(i as int),
        decreases s@.len() - i,
    {
        out.push(s[i]);
        i = i + 1;
        assert(s@.take(i as int) =~= s@.take(i - 1).push(s@[i - 1]));
    }
    assert(s@.take(s@.len() as int) =~= s@);
    out
}

/// The digit that stands for `d` in a radix up to 36.
pub open spec fn digit_char(d: int) -> char {
    if d < 10 {
        ('0' as int + d) as char
    } else {
        ('a' as int + d - 10) as char
    }
}

/// The value of a digit: `0` to `9`, then the letters in either case.
pub open spec fn digit_value(c: char) -> Option<int> {
    if '0' <= c <= '9' {
        Some(c as int - '0' as int)
    } else if 'a' <= c <= 'z' {
        Some(c as int - 'a' as int + 10)
    } else if 'A' <= c <= 'Z' {
        Some(c as int - 'A' as int + 10)
    } else {
        None
    }
}

/// `n` written in `radix`, without leading zeros.
pub open spec fn digits(n: nat, radix: nat) -> Seq<char>
    decreases n,
{
    if radix < 2 || n < radix {
        seq![digit_char(n as int)]
    } else {
        proof {
            assert(n / radix < n) by (nonlinear_arith)
                requires
                    n >= radix,
                    radix >= 2,
            ;
        }
        digits(n / radix, radix).push(digit_char((n % radix) as int))
    }
}

/// `n` in decimal, with a minus sign when it is negative.
pub open spec fn decimal(n: int) -> Seq<char> {
    if n < 0 {
        seq!['-'] + digits((-n) as nat, 10)
    } else {
        digits(n as nat, 10)
    }
}

/// Whether `s` is one or more digits of `radix`.
pub open spec fn is_digits(s: Seq<char>, radix: int) -> bool {
    &&& s.len() > 0
    &&& all_digits(s, radix)
}

/// Whether every character of `s` is a digit of `radix`.
pub open spec fn all_digits(s: Seq<char>, radix: int) -> bool {
    forall|i: int|
        0 <= i < s.len() ==> (#[trigger] digit_value(s[i]) matches Some(v) && v < radix)
}

/// The number that the digits of `s` write in `radix`.
pub open spec fn number(s: Seq<char>, radix: int) -> int
    decreases s.len(),
{
    if s.len() == 0 {
        0
    } else {
        number(s.drop_last(), radix) * radix + digit_value(s.last())->0
    }
}

/// The digits of a number that may carry a plus sign, or a minus sign where
/// `signed` allows one.
pub open spec fn unsigned_part(s: Seq<char>, signed: bool) -> Seq<char> {
    if s.len() > 0 && (s[0] == '+' || (signed && s[0] == '-')) {
        s.drop_first()
    } else {
        s
    }
}

/// The integer that `s` writes in `radix`: an optional sign and at least one
/// digit, with a value from `lo` to `hi`.
pub open spec fn parsed(s: Seq<char>, radix: int, lo: int, hi: int) -> Option<int> {
    let body = unsigned_part(s, lo < 0);
    let magnitude = number(body, radix);
    let value = if lo < 0 && s.len() > 0 && s[0] == '-' {
        -magnitude
    } else {
        magnitude
    };
    if is_digits(body, radix) && lo <= value <= hi {
        Some(value)
    } else {
        None
    }
}

/// The `i64` that `s` writes in `radix`.
pub open spec fn parsed_i64(s: Seq<char>, radix: int) -> Option<int> {
    parsed(s, radix, i64::MIN as int, i64::MAX as int)
}

/// The `i32` that `s` writes in decimal.
pub open spec fn parsed_i32(s: Seq<char>) -> Option<int> {
    parsed(s, 10, i32::MIN as int, i32::MAX as int)
}

/// The `usize` that `s` writes in decimal.
pub open spec fn parsed_usize(s: Seq<char>) -> Option<int> {
    parsed(s, 10, 0, usize::MAX as int)
}

fn digit(d: u64) -> (r: char)
    requires
        d < 36,
    ensures
        r == digit_char(d as int),
{
    if d < 10 {
        (48u8 + d as u8) as char
    } else {
        (97u8 + (d - 10) as u8) as char
    }
}

fn value_of(c: char) -> (r: Option<u64>)
    ensures
        r matches Some(v) ==> digit_value(c) == Some(v as int) && v < 36,
        r is None ==> digit_value(c) is None,
{
    let code: u32 = c as u32;
    if 48 <= code && code <= 57 {
        Some((code - 48) as u64)
    } else if 97 <= code && code <= 122 {
        Some((code - 97 + 10) as u64)
    } else if 65 <= code && code <= 90 {
        Some((code - 65 + 10) as u64)
    } else {
        None
    }
}

/// `n` written in `radix`.
pub fn to_digits(n: u64, radix: u64) -> (r: Vec<char>)
    requires
        2 <= radix <= 36,
    ensures
        r@ == digits(n as nat, radix as nat),
    decreases n,
{
    if n < radix {
        let mut out: Vec<char> = Vec::new();
        out.push(digit(n));
        assert(out@ =~= digits(n as nat, radix as nat));
        out
    } else {
        proof {
            assert(n / radix < n) by (nonlinear_arith)
                requires
                    n >= radix,
                    radix >= 2,
            ;
            assert(n % radix < radix) by (nonlinear_arith)
                requires
                    radix >= 2,
            ;
        }
        let mut out: Vec<char> = to_digits(n / radix, radix);
        out.push(digit(n % radix));
        out
    }
}

/// Appends `n` in decimal.
pub fn push_decimal(out: &mut String, n: i64)
    ensures
        final(out)@ == old(out)@ + decimal(n as int),
{
    let ghost before = out@;
    let magnitude: u64;
    if n < 0 {
        out.push('-');
        magnitude = if n == i64::MIN { 0x8000_0000_0000_0000u64 } else { (-n) as u64 };
    } else {
        magnitude = n as u64;
    }
    let text: Vec<char> = to_digits(magnitude, 10);
    let tail: String = string_of(text.as_slice());
    out.append(tail.as_str());
    assert(out@ =~= before + decimal(n as int));
}

/// Appends `n` in decimal.
pub fn push_count(out: &mut String, n: u64)
    ensures
        final(out)@ == old(out)@ + decimal(n as int),
{
    let text: Vec<char> = to_digits(n, 10);
    let tail: String = string_of(text.as_slice());
    out.append(tail.as_str());
}

/// Writing a number and reading its digits gives the number back.
pub proof fn lemma_digits_number(n: nat, radix: nat)
    requires
        2 <= radix <= 36,
    ensures
        is_digits(digits(n, radix), radix as int),
        number(digits(n, radix), radix as int) == n,
        digits(n, radix)[0] != '+',
        digits(n, radix)[0] != '-',
    decreases n,
{
    reveal_with_fuel(number, 2);
    let r = radix as int;
    let d = digits(n, radix);
    if n < radix {
        assert(d.drop_last() =~= Seq::<char>::empty());
        assert(digit_value(d[0]) == Some(n as int));
    } else {
        assert(n / radix < n) by (nonlinear_arith)
            requires
                n >= radix,
                radix >= 2,
        ;
        assert(n % radix < radix) by (nonlinear_arith)
            requires
                radix >= 2,
        ;
        assert(n == (n / radix) * radix + n % radix) by (nonlinear_arith)
            requires
                radix >= 2,
        ;
        lemma_digits_number(n / radix, radix);
        let p = digits(n / radix, radix);
        assert(d.drop_last() =~= p);
        assert(d[0] == p[0]);
        assert forall|i: int| 0 <= i < d.len() implies (#[trigger] digit_value(d[i]) matches Some(v)
            && v < r) by {
            if i < p.len() {
                assert(d[i] == p[i]);
                assert(digit_value(p[i]) is Some);
            } else {
                assert(d[i] == digit_char((n % radix) as int));
            }
        }
    }
}

/// An integer in decimal reads back as itself wherever it fits.
pub proof fn lemma_decimal_parses(n: int, lo: int, hi: int)
    requires
        lo <= n <= hi,
        lo <= 0,
    ensures
        parsed(decimal(n), 10, lo, hi) == Some(n),
{
    if n < 0 {
        lemma_digits_number((-n) as nat, 10);
        assert(decimal(n).drop_first() =~= digits((-n) as nat, 10));
    } else {
        lemma_digits_number(n as nat, 10);
    }
}

/// Digits only ever make a number larger.
proof fn lemma_number_grows(s: Seq<char>, k: int, radix: int)
    requires
        all_digits(s, radix),
        radix >= 1,
        0 <= k <= s.len(),
    ensures
        0 <= number(s.take(k), radix) <= number(s, radix),
    decreases s.len(),
{
    if s.len() == 0 {
        assert(s.take(k) =~= s);
    } else {
        let p = s.drop_last();
        assert(all_digits(p, radix)) by {
            assert forall|i: int| 0 <= i < p.len() implies (#[trigger] digit_value(p[i]) matches Some(v)
                && v < radix) by {
                assert(digit_value(s[i]) is Some);
            }
        }
        assert(digit_value(s[s.len() - 1]) is Some);
        lemma_number_grows(p, p.len() as int, radix);
        assert(p.take(p.len() as int) =~= p);
        assert(number(p, radix) * radix >= number(p, radix)) by (nonlinear_arith)
            requires
                number(p, radix) >= 0,
                radix >= 1,
        ;
        if k == s.len() {
            assert(s.take(k) =~= s);
        } else {
            lemma_number_grows(p, k, radix);
            assert(p.take(k) =~= s.take(k));
        }
    }
}

/// The number that the digits from `from` on write, or None where a character
/// is no digit of `radix` or there is none. Values past 64 bits read as
/// `u64::MAX + 1`.
fn magnitude_from(s: &[char], from: usize, radix: u64) -> (r: Option<u128>)
    requires
        from <= s@.len(),
        2 <= radix <= 36,
    ensures
        r is Some <==> is_digits(s@.skip(from as int), radix as int),
        r matches Some(v) ==> {
            let n = number(s@.skip(from as int), radix as int);
            if n <= u64::MAX {
                v == n
            } else {
                v == u64::MAX + 1
            }
        },
{
    let ghost body = s@.skip(from as int);
    if from == s.len() {
        return None;
    }
    let mut acc: u128 = 0;
    let mut i: usize = from;
    while i < s.len()
        invariant
            from <= i <= s@.len(),
            2 <= radix <= 36,
            body == s@.skip(from as int),
            all_digits(body.take(i - from), radix as int),
            acc <= u64::MAX + 1,
            number(body.take(i - from), radix as int) <= u64::MAX ==> acc == number(
                body.take(i - from),
                radix as int,
            ),
            number(body.take(i - from), radix as int) > u64::MAX ==> acc == u64::MAX + 1,
            number(body.take(i - from), radix as int) >= 0,
        decreases s@.len() - i,
    {
        let ghost k = i - from;
        let ghost cur = body.take(k);
        let ghost next = body.take(k + 1);
        assert(next.drop_last() =~= cur);
        assert(next.last() == s@[i as int]);
        assert(next[k] == body[k]);
        match value_of(s[i]) {
            Some(d) if d < radix => {
                proof {
                    assert(all_digits(next, radix as int)) by {
                        assert forall|j: int| 0 <= j < next.len() implies (#[trigger] digit_value(
                            next[j],
                        ) matches Some(v) && v < radix) by {
                            if j < k {
                                assert(next[j] == cur[j]);
                            }
                        }
                    }
                    lemma_number_grows(next, k, radix as int);
                    assert(next.take(k) =~= cur);
                    assert(acc * radix <= (u64::MAX + 1) * 36) by (nonlinear_arith)
                        requires
                            acc <= u64::MAX + 1,
                            radix <= 36,
                    ;
                    assert(number(cur, radix as int) * radix >= number(cur, radix as int))
                        by (nonlinear_arith)
                        requires
                            number(cur, radix as int) >= 0,
                            radix >= 2,
                    ;
                }
                let wide: u128 = acc * (radix as u128) + d as u128;
                proof {
                    assert(acc * radix >= acc) by (nonlinear_arith)
                        requires
                            acc >= 0,
                            radix >= 2,
                    ;
                    assert(acc as int * radix as int == (acc * (radix as u128)) as int);
                }
                acc = if wide > 0xffff_ffff_ffff_ffffu128 { 0x1_0000_0000_0000_0000u128 } else { wide };
                i = i + 1;
            },
            _ => {
                proof {
                    assert(!is_digits(body, radix as int)) by {
                        assert(digit_value(body[k]) matches Some(v) ==> v >= radix);
                    }
                }
                return None;
            },
        }
    }
    assert(body.take(body.len() as int) =~= body);
    Some(acc)
}

/// Reads an integer: an optional sign, then digits of `radix`.
pub fn parse_i64(s: &[char], radix: u64) -> (r: Option<i64>)
    requires
        2 <= radix <= 36,
    ensures
        r matches Some(v) ==> parsed_i64(s@, radix as int) == Some(v as int),
        r is None ==> parsed_i64(s@, radix as int) is None,
{
    let negative: bool = s.len() > 0 && s[0] == '-';
    let from: usize = if s.len() > 0 && (s[0] == '+' || s[0] == '-') { 1 } else { 0 };
    assert(s@.skip(from as int) =~= unsigned_part(s@, true));
    match magnitude_from(s, from, radix) {
        None => None,
        Some(m) => {
            if negative {
                if m <= 0x7fff_ffff_ffff_ffffu128 {
                    Some(-(m as i64))
                } else if m == 0x8000_0000_0000_0000u128 {
                    Some(i64::MIN)
                } else {
                    None
                }
            } else if m <= 0x7fff_ffff_ffff_ffffu128 {
                Some(m as i64)
            } else {
                None
            }
        },
    }
}

/// Reads a decimal integer that fits 32 bits.
pub fn parse_i32(s: &[char]) -> (r: Option<i32>)
    ensures
        r matches Some(v) ==> parsed_i32(s@) == Some(v as int),
        r is None ==> parsed_i32(s@) is None,
{
    match parse_i64(s, 10) {
        None => None,
        Some(v) => if -0x8000_0000i64 <= v && v <= 0x7fff_ffffi64 {
            Some(v as i32)
        } else {
            None
        },
    }
}

/// Reads a decimal number that may carry a plus sign.
pub fn parse_usize(s: &[char]) -> (r: Option<usize>)
    ensures
        r matches Some(v) ==> parsed_usize(s@) == Some(v as int),
        r is None ==> parsed_usize(s@) is None,
{
    let from: usize = if s.len() > 0 && s[0] == '+' { 1 } else { 0 };
    assert(s@.skip(from as int) =~= unsigned_part(s@, false));
    match magnitude_from(s, from, 10) {
        None => None,
        Some(m) => if m <= usize::MAX as u128 {
            Some(m as usize)
        } else {
            None
        },
    }
}

/// Where `c` first stands in `s`, or the length of `s` where it does not.
pub open spec fn position(s: Seq<char>, c: char) -> int
    decreases s.len(),
{
    if s.len() == 0 || s[0] == c {
        0
    } else {
        1 + position(s.drop_first(), c)
    }
}

/// `position` is the one place with `c` at it and no `c` before it.
pub proof fn lemma_position(s: Seq<char>, c: char)
    ensures
        0 <= position(s, c) <= s.len(),
        forall|i: int| 0 <= i < position(s, c) ==> s[i] != c,
        position(s, c) < s.len() ==> s[position(s, c)] == c,
    decreases s.len(),
{
    if s.len() == 0 || s[0] == c {
    } else {
        let t = s.drop_first();
        lemma_position(t, c);
        assert forall|i: int| 0 <= i < position(s, c) implies s[i] != c by {
            if i > 0 {
                assert(s[i] == t[i - 1]);
            }
        }
    }
}

/// `s` cut at the first `c`, without it; None where it does not occur.
pub open spec fn split_at_first(s: Seq<char>, c: char) -> Option<(Seq<char>, Seq<char>)> {
    let p = position(s, c);
    if p < s.len() {
        Some((s.take(p), s.skip(p + 1)))
    } else {
        None
    }
}

/// Where `c` first stands in `s`, or the length of `s`.
pub fn find_char(s: &[char], c: char) -> (r: usize)
    ensures
        r == position(s@, c),
{
    let mut i: usize = 0;
    while i < s.len() && s[i] != c
        invariant
            i <= s@.len(),
            forall|j: int| 0 <= j < i ==> s@[j] != c,
        decreases s@.len() - i,
    {
        i = i + 1;
    }
    proof {
        lemma_position(s@, c);
        let p = position(s@, c);
        if p < i {
            assert(s@[p] != c);
        }
        if i < p {
            assert(s@[i as int] != c);
        }
    }
    i
}

/// `s` cut at the first `c`, without it.
pub fn split_once<'a>(s: &'a [char], c: char) -> (r: Option<(&'a [char], &'a [char])>)
    ensures
        match r {
            Some((a, b)) => split_at_first(s@, c) == Some((a@, b@)),
            None => split_at_first(s@, c) is None,
        },
{
    let p: usize = find_char(s, c);
    proof {
        lemma_position(s@, c);
    }
    if p < s.len() {
        let a: &[char] = slice_subrange(s, 0, p);
        let b: &[char] = slice_subrange(s, p + 1, s.len());
        assert(a@ =~= s@.take(p as int));
        assert(b@ =~= s@.skip(p + 1));
        Some((a, b))
    } else {
        None
    }
}

/// The characters with the Unicode White_Space property.
pub open spec fn is_space(c: char) -> bool {
    let u = c as int;
    ||| 0x9 <= u <= 0xd
    ||| u == 0x20
    ||| u == 0x85
    ||| u == 0xa0
    ||| u == 0x1680
    ||| 0x2000 <= u <= 0x200a
    ||| u == 0x2028
    ||| u == 0x2029
    ||| u == 0x202f
    ||| u == 0x205f
    ||| u == 0x3000
}

/// Whether `c` is white space.
pub fn space(c: char) -> (r: bool)
    ensures
        r == is_space(c),
{
    let u: u32 = c as u32;
    (0x9 <= u && u <= 0xd) || u == 0x20 || u == 0x85 || u == 0xa0 || u == 0x1680 || (0x2000 <= u
        && u <= 0x200a) || u == 0x2028 || u == 0x2029 || u == 0x202f || u == 0x205f || u == 0x3000
}

/// The control characters: general category Cc.
pub open spec fn is_control(c: char) -> bool {
    let u = c as int;
    u <= 0x1f || 0x7f <= u <= 0x9f
}

/// Whether `c` is a control character.
pub fn control(c: char) -> (r: bool)
    ensures
        r == is_control(c),
{
    let u: u32 = c as u32;
    u <= 0x1f || (0x7f <= u && u <= 0x9f)
}

/// Whether nothing but white space is in `s`.
pub open spec fn is_blank(s: Seq<char>) -> bool {
    forall|i: int| 0 <= i < s.len() ==> is_space(#[trigger] s[i])
}

/// Whether `s` is white space alone.
pub fn blank(s: &[char]) -> (r: bool)
    ensures
        r == is_blank(s@),
{
    let mut i: usize = 0;
    while i < s.len()
        invariant
            i <= s@.len(),
            forall|j: int| 0 <= j < i ==> is_space(#[trigger] s@[j]),
        decreases s@.len() - i,
    {
        if !space(s[i]) {
            return false;
        }
        i = i + 1;
    }
    true
}

/// `s` without the white space before its first other character.
pub open spec fn trim_start(s: Seq<char>) -> Seq<char>
    decreases s.len(),
{
    if s.len() > 0 && is_space(s[0]) {
        trim_start(s.drop_first())
    } else {
        s
    }
}

/// `s` without the white space after its last other character.
pub open spec fn trim_end(s: Seq<char>) -> Seq<char>
    decreases s.len(),
{
    if s.len() > 0 && is_space(s.last()) {
        trim_end(s.drop_last())
    } else {
        s
    }
}

/// `s` without the white space around it.
pub open spec fn trimmed(s: Seq<char>) -> Seq<char> {
    trim_end(trim_start(s))
}

/// `s` without the white space around it.
pub fn trim<'a>(s: &'a [char]) -> (r: &'a [char])
    ensures
        r@ == trimmed(s@),
{
    let mut from: usize = 0;
    assert(s@.skip(0) =~= s@);
    while from < s.len() && space(s[from])
        invariant
            from <= s@.len(),
            trim_start(s@) == trim_start(s@.skip(from as int)),
        decreases s@.len() - from,
    {
        assert(s@.skip(from as int).drop_first() =~= s@.skip(from + 1));
        from = from + 1;
    }
    let mut to: usize = s.len();
    let ghost body = s@.skip(from as int);
    assert(s@.subrange(from as int, to as int) =~= body);
    while from < to && space(s[to - 1])
        invariant
            from <= to <= s@.len(),
            trim_end(body) == trim_end(s@.subrange(from as int, to as int)),
        decreases to,
    {
        assert(s@.subrange(from as int, to as int).drop_last() =~= s@.subrange(
            from as int,
            to - 1,
        ));
        to = to - 1;
    }
    slice_subrange(s, from, to)
}

/// `s` without the characters `a` and `b` at its end.
pub open spec fn without_trailing(s: Seq<char>, a: char, b: char) -> Seq<char>
    decreases s.len(),
{
    if s.len() > 0 && (s.last() == a || s.last() == b) {
        without_trailing(s.drop_last(), a, b)
    } else {
        s
    }
}

/// Drops the characters `a` and `b` from the end of `s`.
pub fn strip_trailing<'a>(s: &'a [char], a: char, b: char) -> (r: &'a [char])
    ensures
        r@ == without_trailing(s@, a, b),
{
    let mut to: usize = s.len();
    assert(s@.take(to as int) =~= s@);
    while 0 < to && (s[to - 1] == a || s[to - 1] == b)
        invariant
            to <= s@.len(),
            without_trailing(s@, a, b) == without_trailing(s@.take(to as int), a, b),
        decreases to,
    {
        assert(s@.take(to as int).drop_last() =~= s@.take(to - 1));
        to = to - 1;
    }
    let r: &[char] = slice_subrange(s, 0, to);
    assert(r@ =~= s@.take(to as int));
    r
}

/// `s` with spaces before it up to `width` characters.
pub open spec fn right_aligned(s: Seq<char>, width: int) -> Seq<char> {
    spaces(width - s.len()) + s
}

/// `n` spaces, none where `n` is negative.
pub open spec fn spaces(n: int) -> Seq<char> {
    Seq::new(if n < 0 { 0 } else { n as nat }, |i: int| ' ')
}

/// Appends `s` with spaces before it up to `width` characters.
pub fn push_right_aligned(out: &mut String, s: &str, width: usize)
    ensures
        final(out)@ == old(out)@ + right_aligned(s@, width as int),
{
    let ghost before = out@;
    let mut len: usize = s.unicode_len();
    while len < width
        invariant
            s@.len() <= len,
            len <= width || len == s@.len(),
            out@ == before + spaces(len - s@.len()),
        decreases width - len,
    {
        out.push(' ');
        assert(spaces(len - s@.len()).push(' ') =~= spaces(len + 1 - s@.len()));
        len = len + 1;
    }
    assert(spaces(len - s@.len()) =~= spaces(width - s@.len()));
    out.append(s);
    assert(out@ =~= before + right_aligned(s@, width as int));
}

/// Whether two texts have the same characters.
pub fn same_chars(a: &[char], b: &[char]) -> (r: bool)
    ensures
        r == (a@ == b@),
{
    if a.len() != b.len() {
        return false;
    }
    let mut i: usize = 0;
    while i < a.len()
        invariant
            i <= a@.len(),
            a@.len() == b@.len(),
            forall|j: int| 0 <= j < i ==> a@[j] == b@[j],
        decreases a@.len() - i,
    {
        if a[i] != b[i] {
            assert(a@[i as int] != b@[i as int]);
            return false;
        }
        i = i + 1;
    }
    assert(a@ =~= b@);
    true
}

/// A number that is not negative has no white space to trim.
pub proof fn lemma_decimal_not_trimmed(n: int)
    requires
        n >= 0,
    ensures
        trimmed(decimal(n)) == decimal(n),
{
    let s = decimal(n);
    lemma_digits_number(n as nat, 10);
    assert(digit_value(s[0]) is Some);
    assert(digit_value(s[s.len() - 1]) is Some);
    assert(!is_space(s[0]));
    assert(!is_space(s[s.len() - 1]));
}

/// Ten to the power of `k`.
spec fn ten_to(k: nat) -> nat
    decreases k,
{
    if k == 0 {
        1
    } else {
        10 * ten_to((k - 1) as nat)
    }
}

proof fn lemma_digits_length(n: nat, k: nat)
    requires
        0 < k,
        n < ten_to(k),
    ensures
        1 <= digits(n, 10).len() <= k,
    decreases k,
{
    if n >= 10 {
        if k == 1 {
            reveal_with_fuel(ten_to, 2);
        } else {
            lemma_digits_length(n / 10, (k - 1) as nat);
        }
    }
}

/// A number of 64 bits has twenty characters at most.
pub proof fn lemma_decimal_length(n: int)
    requires
        i64::MIN <= n <= i64::MAX,
    ensures
        1 <= decimal(n).len() <= 20,
{
    assert(ten_to(19) == 10_000_000_000_000_000_000) by {
        reveal_with_fuel(ten_to, 20);
    }
    if n < 0 {
        lemma_digits_length((-n) as nat, 19);
    } else {
        lemma_digits_length(n as nat, 19);
    }
}

/// A text is cut at the first `c`: what is joined by a `c` that does not stand
/// in the first part comes apart again.
pub proof fn law_split_undoes_joining(a: Seq<char>, c: char, b: Seq<char>)
    requires
        forall|j: int| 0 <= j < a.len() ==> #[trigger] a[j] != c,
    ensures
        split_at_first(a.push(c) + b, c) == Some((a, b)),
{
    let s = a.push(c) + b;
    lemma_position(s, c);
    let p = position(s, c);
    assert(s[a.len() as int] == c);
    if p < a.len() {
        assert(s[p] == a[p]);
    }
    assert(s.take(p) =~= a);
    assert(s.skip(p + 1) =~= b);
}

/// Just the characters `a` and `b` at the end are dropped, all of them.
pub proof fn law_trailing_characters_are_dropped(s: Seq<char>, tail: Seq<char>, a: char, b: char)
    requires
        s.len() > 0 ==> s.last() != a && s.last() != b,
        forall|j: int| 0 <= j < tail.len() ==> #[trigger] tail[j] == a || tail[j] == b,
    ensures
        without_trailing(s + tail, a, b) == s,
    decreases tail.len(),
{
    if tail.len() == 0 {
        assert(s + tail =~= s);
    } else {
        assert((s + tail).last() == tail[tail.len() - 1]);
        assert((s + tail).drop_last() =~= s + tail.drop_last());
        law_trailing_characters_are_dropped(s, tail.drop_last(), a, b);
    }
}

/// White space around a text is dropped, and nothing else.
pub proof fn law_trimming_drops_white_space(a: Seq<char>, s: Seq<char>, b: Seq<char>)
    requires
        s.len() > 0,
        !is_space(s[0]),
        !is_space(s.last()),
        forall|j: int| 0 <= j < a.len() ==> is_space(#[trigger] a[j]),
        forall|j: int| 0 <= j < b.len() ==> is_space(#[trigger] b[j]),
    ensures
        trimmed(a + s + b) == s,
    decreases a.len() + b.len(),
{
    let w = a + s + b;
    if a.len() > 0 {
        assert(w[0] == a[0]);
        assert(w.drop_first() =~= a.drop_first() + s + b);
        law_trimming_drops_white_space(a.drop_first(), s, b);
    } else if b.len() > 0 {
        assert(w[0] == s[0]);
        assert(w.last() == b[b.len() - 1]);
        assert(w.drop_last() =~= a + s + b.drop_last());
        assert(w.drop_last()[0] == s[0]);
        law_trimming_drops_white_space(a, s, b.drop_last());
    } else {
        assert(w =~= s);
    }
}

/// A text is set to the right of a field: spaces before it, and nothing else.
pub proof fn law_aligned_text_ends_its_field(s: Seq<char>, width: int)
    ensures
        ({
            let field = right_aligned(s, width);
            let pad = field.len() - s.len();
            &&& field.len() == if s.len() < width {
                width
            } else {
                s.len() as int
            }
            &&& field.skip(pad) == s
            &&& forall|j: int| 0 <= j < pad ==> #[trigger] field[j] == ' '
        }),
{
    let field = right_aligned(s, width);
    assert(field.skip(field.len() - s.len()) =~= s);
}

proof fn lemma_high_bytes(b: u8)
    ensures
        0x80u8 | b >= 128,
        0xC0u8 | b >= 128,
        0xE0u8 | b >= 128,
        0xF0u8 | b >= 128,
{
    assert(0x80u8 | b >= 128 && 0xC0u8 | b >= 128 && 0xE0u8 | b >= 128 && 0xF0u8 | b >= 128)
        by (bit_vector);
}

/// A character other than the newline is encoded without the newline's byte.
proof fn lemma_scalar_without_newline(c: char)
    requires
        c != '\n',
    ensures
        forall|j: int|
            0 <= j < encode_scalar(c as u32).len() ==> #[trigger] encode_scalar(c as u32)[j] != 10,
{
    let v = c as u32;
    if has_width_1_encoding(v) {
        assert(v <= 0x7F ==> v & 0x7F == v) by (bit_vector);
        assert(v != 10);
    } else {
        lemma_high_bytes((v & 0x3F) as u8);
        lemma_high_bytes(((v >> 6) & 0x3F) as u8);
        lemma_high_bytes(((v >> 12) & 0x3F) as u8);
        lemma_high_bytes(((v >> 6) & 0x1F) as u8);
        lemma_high_bytes(((v >> 12) & 0x0F) as u8);
        lemma_high_bytes(((v >> 18) & 0x7) as u8);
    }
}

/// A text without a newline is encoded without the newline's byte.
pub proof fn lemma_encoded_without_newline(s: Seq<char>)
    requires
        forall|j: int| 0 <= j < s.len() ==> #[trigger] s[j] != '\n',
    ensures
        forall|j: int| 0 <= j < encode_utf8(s).len() ==> #[trigger] encode_utf8(s)[j] != 10,
    decreases s.len(),
{
    if s.len() > 0 {
        let rest = s.drop_first();
        assert forall|j: int| 0 <= j < rest.len() implies #[trigger] rest[j] != '\n' by {
            assert(rest[j] == s[j + 1]);
        }
        lemma_scalar_without_newline(s[0]);
        lemma_encoded_without_newline(rest);
        let first = encode_scalar(s[0] as u32);
        assert forall|j: int| 0 <= j < encode_utf8(s).len() implies #[trigger] encode_utf8(s)[j]
            != 10 by {
            if j < first.len() {
                assert(encode_utf8(s)[j] == first[j]);
            } else {
                assert(encode_utf8(s)[j] == encode_utf8(rest)[j - first.len()]);
            }
        }
    }
}

/// A text is encoded piece by piece.
pub proof fn lemma_encoded_pieces(a: Seq<char>, b: Seq<char>)
    ensures
        encode_utf8(a + b) == encode_utf8(a) + encode_utf8(b),
    decreases a.len(),
{
    if a.len() == 0 {
        assert(a + b =~= b);
        assert(encode_utf8(a) + encode_utf8(b) =~= encode_utf8(b));
    } else {
        assert((a + b).drop_first() =~= a.drop_first() + b);
        lemma_encoded_pieces(a.drop_first(), b);
        assert(encode_utf8(a + b) =~= encode_utf8(a) + encode_utf8(b));
    }
}

/// What is white space: of the ASCII characters the space and those from tab to
/// carriage return, of the others those that Unicode lists.
pub proof fn law_white_space(c: char)
    ensures
        (c as int) < 0x80 ==> (is_space(c) <==> c == ' ' || c == '\t' || c == '\n' || c == '\x0b' || c
            == '\x0c' || c == '\r'),
        is_space(c) && c as int >= 0x80 ==> c == '\u{85}' || c == '\u{a0}' || c == '\u{1680}' || (
        '\u{2000}' <= c <= '\u{200a}') || c == '\u{2028}' || c == '\u{2029}' || c == '\u{202f}'
            || c == '\u{205f}' || c == '\u{3000}',
        is_space('\u{85}') && is_space('\u{a0}') && is_space('\u{1680}') && is_space('\u{2028}')
            && is_space('\u{2029}') && is_space('\u{202f}') && is_space('\u{205f}') && is_space(
            '\u{3000}',
        ),
        '\u{2000}' <= c <= '\u{200a}' ==> is_space(c),
{
}

/// What is a control character: those below the space, and those from delete
/// to the last before the no-break space.
pub proof fn law_control_characters(c: char)
    ensures
        ' ' > c ==> is_control(c),
        ' ' <= c <= '~' ==> !is_control(c),
        '\x7f' <= c && '\u{a0}' > c ==> is_control(c),
        '\u{a0}' <= c ==> !is_control(c),
{
}

/// The ends of a number in decimal are no white space.
pub proof fn lemma_decimal_ends(n: int)
    ensures
        decimal(n).len() > 0,
        !is_space(decimal(n)[0]),
        !is_space(decimal(n).last()),
{
    let body = digits(
        if n < 0 {
            (-n) as nat
        } else {
            n as nat
        },
        10,
    );
    lemma_digits_number(
        if n < 0 {
            (-n) as nat
        } else {
            n as nat
        },
        10,
    );
    assert(digit_value(body[0]) is Some);
    assert(digit_value(body[body.len() - 1]) is Some);
    assert(decimal(n).last() == body[body.len() - 1]);
    if n < 0 {
        assert(decimal(n)[0] == '-');
    } else {
        assert(decimal(n)[0] == body[0]);
    }
}

/// A text is a decimal number only where it is made of digits, behind a sign
/// where there is one, and only a signed number has a minus.
pub proof fn law_numbers_are_made_of_digits(s: Seq<char>, lo: int, hi: int)
    requires
        parsed(s, 10, lo, hi) is Some,
    ensures
        lo <= parsed(s, 10, lo, hi)->0 <= hi,
        s.len() > 0,
        s.len() == 1 ==> '0' <= s[0] <= '9',
        '0' <= s[0] <= '9' || s[0] == '+' || (s[0] == '-' && lo < 0),
        forall|j: int| 0 < j < s.len() ==> '0' <= #[trigger] s[j] <= '9',
{
    let body = unsigned_part(s, lo < 0);
    assert(digit_value(body[0]) is Some);
    assert forall|j: int| 0 < j < s.len() implies '0' <= #[trigger] s[j] <= '9' by {
        let k = j - (s.len() - body.len());
        assert(body[k] == s[j]);
        assert(digit_value(body[k]) is Some);
    }
}

} // verus!
