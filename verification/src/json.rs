//! The JSON records that the stores keep: objects of one-letter fields, read
//! and written value by value.

use vstd::prelude::*;
use vstd::slice::slice_subrange;
use vstd::utf8::{
    encode_scalar, has_width_1_encoding, last_continuation_byte, leading_byte_width_1,
    leading_byte_width_2, leading_byte_width_3, leading_byte_width_4,
    second_last_continuation_byte, third_last_continuation_byte,
};
use crate::text::{
    decimal, digit_value, digits, lemma_decimal_length, lemma_digits_number, text_view,
};

verus! {

/// The hexadecimal digit of a number below 16.
pub open spec fn hex_digit(n: int) -> u8 {
    if n < 10 {
        (48 + n) as u8
    } else {
        (87 + n) as u8
    }
}

/// A character as JSON writes it inside a string: the quotation mark, the
/// backslash and the characters below a space are escaped, and the others
/// stand as they are, in UTF-8.
pub open spec fn escaped(c: char) -> Seq<u8> {
    if c == '"' {
        seq![92u8, 34u8]
    } else if c == '\\' {
        seq![92u8, 92u8]
    } else if c == '\x08' {
        seq![92u8, 98u8]
    } else if c == '\t' {
        seq![92u8, 116u8]
    } else if c == '\n' {
        seq![92u8, 110u8]
    } else if c == '\x0c' {
        seq![92u8, 102u8]
    } else if c == '\r' {
        seq![92u8, 114u8]
    } else if ' ' > c {
        seq![92u8, 117u8, 48u8, 48u8, hex_digit(c as int / 16), hex_digit(c as int % 16)]
    } else {
        encode_scalar(c as u32)
    }
}

/// The characters of a text as JSON writes them inside a string.
pub open spec fn escapes(s: Seq<char>) -> Seq<u8>
    decreases s.len(),
{
    if s.len() == 0 {
        Seq::empty()
    } else {
        escapes(s.drop_last()) + escaped(s.last())
    }
}

/// A text as JSON writes it.
pub open spec fn json_text(s: Seq<char>) -> Seq<u8> {
    seq![34u8] + escapes(s) + seq![34u8]
}

/// What a `serde_json` stream reads as a string at the start of the bytes:
/// the string, and how many bytes were read.
pub uninterp spec fn json_text_at(s: Seq<u8>) -> Option<(Seq<char>, int)>;

/// What a `serde_json` stream reads as an `i64` at the start of the bytes: the
/// number, and how many bytes were read.
pub uninterp spec fn json_i64_at(s: Seq<u8>) -> Option<(i64, int)>;

/// How many bytes a `serde_json` stream reads as a value of any kind at the
/// start of the bytes.
pub uninterp spec fn json_value_at(s: Seq<u8>) -> Option<int>;

/// Whether JSON writes every character of `s` as itself: printable ASCII but
/// the quotation mark and the backslash.
pub open spec fn is_plain(s: Seq<char>) -> bool {
    forall|i: int| 0 <= i < s.len() ==> is_plain_char(#[trigger] s[i])
}

/// Whether JSON writes a character as itself.
pub open spec fn is_plain_char(c: char) -> bool {
    ' ' <= c <= '~' && c != '"' && c != '\\'
}

/// One byte for each character of an ASCII text.
pub open spec fn ascii(s: Seq<char>) -> Seq<u8> {
    Seq::new(s.len(), |i: int| s[i] as u8)
}

/// A plain text in quotation marks.
pub open spec fn quoted(s: Seq<char>) -> Seq<u8> {
    seq![34u8] + ascii(s) + seq![34u8]
}

proof fn lemma_ascii_scalar(c: u32)
    requires
        c < 128,
    ensures
        encode_scalar(c) == seq![c as u8],
{
    assert((c & 0x7F) as u8 == c as u8) by (bit_vector)
        requires
            c < 128,
    ;
    assert(leading_byte_width_1(c) == c as u8);
}

proof fn lemma_wide_scalar(c: u32)
    requires
        c >= 128,
    ensures
        1 <= encode_scalar(c).len() <= 4,
        forall|j: int| 0 <= j < encode_scalar(c).len() ==> #[trigger] encode_scalar(c)[j] >= 128,
{
    assert(0xC0u8 | (((c >> 6) & 0x1F) as u8) >= 128) by (bit_vector);
    assert(0xE0u8 | (((c >> 12) & 0x0F) as u8) >= 128) by (bit_vector);
    assert(0xF0u8 | (((c >> 18) & 0x7) as u8) >= 128) by (bit_vector);
    assert(0x80u8 | ((c & 0x3F) as u8) >= 128) by (bit_vector);
    assert(0x80u8 | (((c >> 6) & 0x3F) as u8) >= 128) by (bit_vector);
    assert(0x80u8 | (((c >> 12) & 0x3F) as u8) >= 128) by (bit_vector);
    assert(leading_byte_width_2(c) >= 128 && leading_byte_width_3(c) >= 128
        && leading_byte_width_4(c) >= 128);
    assert(last_continuation_byte(c) >= 128 && second_last_continuation_byte(c) >= 128
        && third_last_continuation_byte(c) >= 128);
    assert(!has_width_1_encoding(c));
}

proof fn lemma_escaped(c: char)
    ensures
        1 <= escaped(c).len() <= 6,
        forall|j: int| 0 <= j < escaped(c).len() ==> #[trigger] escaped(c)[j] >= 32,
        forall|j: int|
            0 <= j < escaped(c).len() && #[trigger] escaped(c)[j] == 34 ==> j > 0 && escaped(c)[j
                - 1] == 92,
        is_plain_char(c) ==> escaped(c) == seq![c as u8],
{
    if c as u32 >= 128 {
        lemma_wide_scalar(c as u32);
    } else if c >= ' ' {
        lemma_ascii_scalar(c as u32);
    } else {
        assert(0 <= c as int / 16 < 2 && 0 <= c as int % 16 < 16);
    }
}

/// A text is written as a string, in six bytes a character at most.
pub proof fn law_text_is_a_string(s: Seq<char>)
    ensures
        is_string(json_text(s)),
        json_text(s).len() <= 6 * s.len() + 2,
{
    lemma_escapes(s);
    let e = escapes(s);
    let b = json_text(s);
    assert forall|i: int| 0 < i < b.len() - 1 && #[trigger] b[i] == 34 implies b[i - 1] == 92 by {
        assert(b[i] == e[i - 1]);
        assert(b[i - 1] == e[i - 2]);
    }
    assert forall|i: int| 0 <= i < b.len() implies #[trigger] b[i] >= 32 by {
        if 0 < i < b.len() - 1 {
            assert(b[i] == e[i - 1]);
        }
    }
}

proof fn lemma_escapes(s: Seq<char>)
    ensures
        escapes(s).len() <= 6 * s.len(),
        forall|j: int| 0 <= j < escapes(s).len() ==> #[trigger] escapes(s)[j] >= 32,
        forall|j: int|
            0 <= j < escapes(s).len() && #[trigger] escapes(s)[j] == 34 ==> j > 0 && escapes(s)[j
                - 1] == 92,
    decreases s.len(),
{
    if s.len() > 0 {
        let head = escapes(s.drop_last());
        let tail = escaped(s.last());
        let e = escapes(s);
        lemma_escapes(s.drop_last());
        lemma_escaped(s.last());
        assert forall|j: int| 0 <= j < e.len() implies #[trigger] e[j] >= 32 by {
            assert(e[j] == if j < head.len() {
                head[j]
            } else {
                tail[j - head.len()]
            });
        }
        assert forall|j: int| 0 <= j < e.len() && #[trigger] e[j] == 34 implies j > 0 && e[j - 1]
            == 92 by {
            if j < head.len() {
                assert(e[j] == head[j]);
                assert(e[j - 1] == head[j - 1]);
            } else {
                assert(e[j] == tail[j - head.len()]);
                assert(e[j - 1] == tail[j - head.len() - 1]);
            }
        }
    }
}

/// A text that needs no escape is written as itself in quotation marks.
pub proof fn law_plain_text_is_quoted(s: Seq<char>)
    requires
        is_plain(s),
    ensures
        json_text(s) == quoted(s),
{
    lemma_plain_escapes(s);
}

proof fn lemma_plain_escapes(s: Seq<char>)
    requires
        is_plain(s),
    ensures
        escapes(s) == ascii(s),
    decreases s.len(),
{
    if s.len() > 0 {
        let less = s.drop_last();
        assert forall|i: int| 0 <= i < less.len() implies is_plain_char(#[trigger] less[i]) by {
            assert(less[i] == s[i]);
        }
        lemma_plain_escapes(less);
        assert(is_plain_char(s[s.len() - 1]));
        lemma_escaped(s.last());
        assert(ascii(s) =~= ascii(less) + seq![s.last() as u8]);
    } else {
        assert(ascii(s) =~= Seq::<u8>::empty());
    }
}

/// Whether `s` starts with a byte that ends a number inside an object.
pub open spec fn ends_number(s: Seq<u8>) -> bool {
    s.len() > 0 && (s[0] == 44 || s[0] == 125)
}

/// Whether `b` has a quotation mark at either end and others only behind a
/// backslash, and no byte below a space.
pub open spec fn is_string(b: Seq<u8>) -> bool {
    &&& b.len() >= 2
    &&& b[0] == 34
    &&& b[b.len() - 1] == 34
    &&& forall|i: int| 0 < i < b.len() - 1 && #[trigger] b[i] == 34 ==> b[i - 1] == 92
    &&& forall|i: int| 0 <= i < b.len() ==> #[trigger] b[i] >= 32
}

/// Whether what is read from a place inside the string `b` keeps to it: a
/// number ends before the last quotation mark; a text starts at a quotation
/// mark, if not behind white space; and a text that starts at the last one
/// ends at the next one behind it.
pub open spec fn is_closed(b: Seq<u8>) -> bool {
    &&& forall|i: int, rest: Seq<u8>|
        0 < i < b.len() ==> (#[trigger] json_i64_at(b.skip(i) + rest) matches Some((_, n)) ==> 0 < n
            < b.len() - i)
    &&& forall|i: int, rest: Seq<u8>|
        0 < i < b.len() && b[i] != 34 && !is_json_space(b[i]) ==> #[trigger] json_text_at(
            b.skip(i) + rest,
        ) is None
    &&& forall|rest: Seq<u8>|
        rest.len() > 1 && rest[0] == 44 && rest[1] == 34 ==> #[trigger] json_text_at(
            b.skip(b.len() - 1) + rest,
        ) == Some((seq![','], 3int))
    &&& forall|rest: Seq<u8>|
        !rest.contains(34) ==> #[trigger] json_text_at(b.skip(b.len() - 1) + rest) is None
}

/// `serde_json::to_vec` on a string, which writes into a vector and so does
/// not fail. It writes the characters in quotation marks, those escaped that
/// JSON escapes. A `serde_json` stream reads this back as the same string
/// whatever follows it, and one that starts inside reads no number beyond its
/// end and a text only from a quotation mark to the next.
#[verifier::external_body]
fn write_text(s: &str) -> (r: Vec<u8>)
    ensures
        r@ == json_text(s@),
        forall|rest: Seq<u8>| #[trigger] json_text_at(r@ + rest) == Some((s@, r@.len() as int)),
        is_closed(r@),
{
    serde_json::to_vec(s).unwrap()
}

/// `serde_json::to_vec` on an integer, which writes its decimal digits into a
/// vector and so does not fail. They read back as the same integer where a
/// comma or a closing brace follows them.
#[verifier::external_body]
fn write_i64(n: i64) -> (r: Vec<u8>)
    ensures
        r@ == ascii(decimal(n as int)),
        forall|rest: Seq<u8>|
            ends_number(rest) ==> #[trigger] json_i64_at(r@ + rest) == Some((n, r@.len() as int)),
{
    serde_json::to_vec(&n).unwrap()
}

/// One step of `serde_json::Deserializer::from_slice(..).into_iter::<String>()`:
/// the string at the start of the bytes, and `byte_offset` after it. A newline
/// behind the bytes changes nothing: it ends no string and no escape.
#[verifier::external_body]
fn read_text(s: &[u8]) -> (r: Option<(String, usize)>)
    ensures
        match r {
            Some((v, n)) => {
                &&& json_text_at(s@) == Some((v@, n as int))
                &&& json_text_at(s@.push(10)) == Some((v@, n as int))
                &&& 0 < n <= s@.len()
            },
            None => json_text_at(s@) is None && json_text_at(s@.push(10)) is None,
        },
{
    let mut stream = serde_json::Deserializer::from_slice(s).into_iter::<String>();
    match stream.next() {
        Some(Ok(v)) => Some((v, stream.byte_offset())),
        _ => None,
    }
}

/// One step of `serde_json::Deserializer::from_slice(..).into_iter::<i64>()`:
/// the integer at the start of the bytes, and `byte_offset` after it. A newline
/// behind the bytes changes nothing: a number may end there as well as at the
/// end, and one that is cut short there is no number either way.
#[verifier::external_body]
fn read_i64(s: &[u8]) -> (r: Option<(i64, usize)>)
    ensures
        match r {
            Some((v, n)) => {
                &&& json_i64_at(s@) == Some((v, n as int))
                &&& json_i64_at(s@.push(10)) == Some((v, n as int))
                &&& 0 < n <= s@.len()
            },
            None => json_i64_at(s@) is None && json_i64_at(s@.push(10)) is None,
        },
{
    let mut stream = serde_json::Deserializer::from_slice(s).into_iter::<i64>();
    match stream.next() {
        Some(Ok(v)) => Some((v, stream.byte_offset())),
        _ => None,
    }
}

/// One step of a `serde_json` stream of `serde::de::IgnoredAny`: `byte_offset`
/// after the value at the start of the bytes. A newline behind the bytes
/// changes nothing, as for a string and for a number.
#[verifier::external_body]
fn read_value(s: &[u8]) -> (r: Option<usize>)
    ensures
        match r {
            Some(n) => {
                &&& json_value_at(s@) == Some(n as int)
                &&& json_value_at(s@.push(10)) == Some(n as int)
                &&& 0 < n <= s@.len()
            },
            None => json_value_at(s@) is None && json_value_at(s@.push(10)) is None,
        },
{
    let mut stream = serde_json::Deserializer::from_slice(s).into_iter::<serde::de::IgnoredAny>();
    match stream.next() {
        Some(Ok(_)) => Some(stream.byte_offset()),
        _ => None,
    }
}

/// The fields that records are made of.
#[derive(Clone, Copy, PartialEq, Eq, Structural)]
pub enum Field {
    I,
    T,
    D,
    X,
    C,
    M,
}

/// The kinds of record: a line of the history file, an entry to import, a
/// command that is running.
#[derive(Clone, Copy, PartialEq, Eq, Structural)]
pub enum Shape {
    Stored,
    Plain,
    Running,
}

/// The fields of a record, in the order in which they are written.
pub open spec fn fields_of(shape: Shape) -> Seq<Field> {
    match shape {
        Shape::Stored => seq![Field::I, Field::T, Field::D, Field::X, Field::C, Field::M],
        Shape::Plain => seq![Field::T, Field::D, Field::X, Field::C, Field::M],
        Shape::Running => seq![Field::T, Field::D, Field::C],
    }
}

/// The letter that names a field.
pub open spec fn letter(f: Field) -> char {
    match f {
        Field::I => 'i',
        Field::T => 't',
        Field::D => 'd',
        Field::X => 'x',
        Field::C => 'c',
        Field::M => 'm',
    }
}

/// The field of `shape` that a key names; None for a key of something else.
pub open spec fn field_named(shape: Shape, key: Seq<char>) -> Option<Field> {
    if key == seq!['i'] && shape == Shape::Stored {
        Some(Field::I)
    } else if key == seq!['t'] {
        Some(Field::T)
    } else if key == seq!['d'] {
        Some(Field::D)
    } else if key == seq!['x'] && shape != Shape::Running {
        Some(Field::X)
    } else if key == seq!['c'] {
        Some(Field::C)
    } else if key == seq!['m'] && shape != Shape::Running {
        Some(Field::M)
    } else {
        None
    }
}

/// The values that a record gave to its fields.
pub struct Values {
    pub i: Option<i64>,
    pub t: Option<i64>,
    pub d: Option<String>,
    pub x: Option<i64>,
    pub c: Option<String>,
    pub m: Option<i64>,
}

/// The values that a record gave to its fields, with texts as sequences.
#[verifier::ext_equal]
pub struct ValuesView {
    pub i: Option<i64>,
    pub t: Option<i64>,
    pub d: Option<Seq<char>>,
    pub x: Option<i64>,
    pub c: Option<Seq<char>>,
    pub m: Option<i64>,
}

impl View for Values {
    type V = ValuesView;

    open spec fn view(&self) -> ValuesView {
        ValuesView {
            i: self.i,
            t: self.t,
            d: text_view(self.d),
            x: self.x,
            c: text_view(self.c),
            m: self.m,
        }
    }
}

/// A record of nothing.
pub open spec fn no_values() -> ValuesView {
    ValuesView { i: None, t: None, d: None, x: None, c: None, m: None }
}

/// Whether a field has a value already.
pub open spec fn holds(v: ValuesView, f: Field) -> bool {
    match f {
        Field::I => v.i is Some,
        Field::T => v.t is Some,
        Field::D => v.d is Some,
        Field::X => v.x is Some,
        Field::C => v.c is Some,
        Field::M => v.m is Some,
    }
}

/// `v` with a text field set.
pub open spec fn with_text(v: ValuesView, f: Field, s: Seq<char>) -> ValuesView {
    if f == Field::D {
        ValuesView { d: Some(s), ..v }
    } else {
        ValuesView { c: Some(s), ..v }
    }
}

/// `v` with a number field set.
pub open spec fn with_i64(v: ValuesView, f: Field, n: i64) -> ValuesView {
    match f {
        Field::I => ValuesView { i: Some(n), ..v },
        Field::T => ValuesView { t: Some(n), ..v },
        Field::X => ValuesView { x: Some(n), ..v },
        _ => ValuesView { m: Some(n), ..v },
    }
}

/// White space between JSON tokens.
pub open spec fn is_json_space(b: u8) -> bool {
    b == 32 || b == 10 || b == 9 || b == 13
}

/// The first place from `p` on that holds no white space.
pub open spec fn skip_space(s: Seq<u8>, p: int) -> int
    decreases s.len() - p,
{
    if 0 <= p < s.len() && is_json_space(s[p]) {
        skip_space(s, p + 1)
    } else {
        p
    }
}

/// Whether byte `b` stands at `p`.
pub open spec fn at(s: Seq<u8>, p: int, b: u8) -> bool {
    0 <= p < s.len() && s[p] == b
}

/// The value at `p` taken for `field`, and the place after it. A text field
/// takes a string and the others an integer, each at most once; a value that
/// belongs to no field is skipped.
pub open spec fn value_at(s: Seq<u8>, p: int, field: Option<Field>, v: ValuesView) -> Option<
    (ValuesView, int),
> {
    match field {
        None => match json_value_at(s.skip(p)) {
            Some(n) => Some((v, p + n)),
            None => None,
        },
        Some(f) => if holds(v, f) {
            None
        } else if f == Field::D || f == Field::C {
            match json_text_at(s.skip(p)) {
                Some((text, n)) => Some((with_text(v, f, text), p + n)),
                None => None,
            }
        } else {
            match json_i64_at(s.skip(p)) {
                Some((number, n)) => Some((with_i64(v, f, number), p + n)),
                None => None,
            }
        },
    }
}

/// The member of an object whose key starts at `q`, and the place after it.
pub open spec fn member_at(s: Seq<u8>, q: int, shape: Shape, v: ValuesView) -> Option<
    (ValuesView, int),
> {
    if !at(s, q, 34) {
        None
    } else {
        match json_text_at(s.skip(q)) {
            Some((key, n)) => {
                let colon = skip_space(s, q + n);
                if at(s, colon, 58) {
                    value_at(s, colon + 1, field_named(shape, key), v)
                } else {
                    None
                }
            },
            None => None,
        }
    }
}

/// The members of an object from `p` to its closing brace, and the place
/// after that.
#[verifier::opaque]
pub open spec fn members(s: Seq<u8>, p: int, first: bool, shape: Shape, v: ValuesView) -> Option<
    (ValuesView, int),
>
    decreases s.len() - p,
{
    let here = skip_space(s, p);
    if at(s, here, 125) {
        Some((v, here + 1))
    } else if !first && !at(s, here, 44) {
        None
    } else {
        let key = if first {
            here
        } else {
            skip_space(s, here + 1)
        };
        match member_at(s, key, shape, v) {
            Some((w, next)) => if p < next <= s.len() {
                members(s, next, false, shape, w)
            } else {
                None
            },
            None => None,
        }
    }
}

/// The elements of an array from `p` to its closing bracket, taken for the
/// fields of `shape` from the `k`-th on, and the place after that.
pub open spec fn elements(s: Seq<u8>, p: int, k: int, shape: Shape, v: ValuesView) -> Option<
    (ValuesView, int),
>
    decreases s.len() - p,
{
    let here = skip_space(s, p);
    if at(s, here, 93) {
        Some((v, here + 1))
    } else if k >= fields_of(shape).len() || (k > 0 && !at(s, here, 44)) {
        None
    } else {
        let element = if k == 0 {
            here
        } else {
            skip_space(s, here + 1)
        };
        if !(0 <= element < s.len()) || (k > 0 && at(s, element, 93)) {
            None
        } else {
            match value_at(s, element, Some(fields_of(shape)[k]), v) {
                Some((w, next)) => if p < next <= s.len() {
                    elements(s, next, k + 1, shape, w)
                } else {
                    None
                },
                None => None,
            }
        }
    }
}

/// The values of the record that `s` holds, as an object or as an array, with
/// nothing but white space around it.
pub open spec fn record(s: Seq<u8>, shape: Shape) -> Option<ValuesView> {
    let p = skip_space(s, 0);
    let read = if at(s, p, 123) {
        members(s, p + 1, true, shape, no_values())
    } else if at(s, p, 91) {
        elements(s, p + 1, 0, shape, no_values())
    } else {
        None
    };
    match read {
        Some((v, next)) => if skip_space(s, next) == s.len() {
            Some(v)
        } else {
            None
        },
        None => None,
    }
}

proof fn lemma_skip_space(s: Seq<u8>, p: int)
    requires
        0 <= p <= s.len(),
    ensures
        p <= skip_space(s, p) <= s.len(),
    decreases s.len() - p,
{
    if p < s.len() && is_json_space(s[p]) {
        lemma_skip_space(s, p + 1);
    }
}

proof fn lemma_skip_space_ended(s: Seq<u8>, p: int)
    requires
        0 <= p <= s.len(),
    ensures
        skip_space(s.push(10), p) == if skip_space(s, p) == s.len() {
            s.len() as int + 1
        } else {
            skip_space(s, p)
        },
    decreases s.len() - p,
{
    let e = s.push(10);
    if p < s.len() {
        assert(e[p] == s[p]);
        if is_json_space(s[p]) {
            lemma_skip_space_ended(s, p + 1);
        }
    } else {
        assert(e[p] == 10);
        assert(skip_space(e, p + 1) == p + 1);
    }
}

fn space_end(s: &[u8], from: usize) -> (r: usize)
    requires
        from <= s@.len(),
    ensures
        r == skip_space(s@, from as int),
        from <= r <= s@.len(),
        skip_space(s@.push(10), from as int) == if r == s@.len() {
            r + 1
        } else {
            r as int
        },
{
    let mut p: usize = from;
    while p < s.len() && (s[p] == 32 || s[p] == 10 || s[p] == 9 || s[p] == 13)
        invariant
            from <= p <= s@.len(),
            skip_space(s@, from as int) == skip_space(s@, p as int),
        decreases s@.len() - p,
    {
        p = p + 1;
    }
    proof {
        lemma_skip_space_ended(s@, from as int);
    }
    p
}

fn named(shape: Shape, key: &str) -> (r: Option<Field>)
    ensures
        r == field_named(shape, key@),
{
    if key.unicode_len() != 1 {
        return None;
    }
    let c: char = key.get_char(0);
    assert(key@ =~= seq![c]);
    assert(seq![c][0] == c);
    proof {
        assert(seq!['i'][0] == 'i' && seq!['t'][0] == 't' && seq!['d'][0] == 'd' && seq!['x'][0]
            == 'x' && seq!['c'][0] == 'c' && seq!['m'][0] == 'm');
    }
    if c == 'i' && shape == Shape::Stored {
        Some(Field::I)
    } else if c == 't' {
        Some(Field::T)
    } else if c == 'd' {
        Some(Field::D)
    } else if c == 'x' && shape != Shape::Running {
        Some(Field::X)
    } else if c == 'c' {
        Some(Field::C)
    } else if c == 'm' && shape != Shape::Running {
        Some(Field::M)
    } else {
        None
    }
}

fn held(v: &Values, f: Field) -> (r: bool)
    ensures
        r == holds(v@, f),
{
    match f {
        Field::I => v.i.is_some(),
        Field::T => v.t.is_some(),
        Field::D => v.d.is_some(),
        Field::X => v.x.is_some(),
        Field::C => v.c.is_some(),
        Field::M => v.m.is_some(),
    }
}

/// Takes the value at `p` for `field`; None where it does not fit.
fn take_value(s: &[u8], p: usize, field: Option<Field>, v: &mut Values) -> (r: Option<usize>)
    requires
        p <= s@.len(),
    ensures
        match r {
            Some(next) => {
                &&& value_at(s@, p as int, field, old(v)@) == Some((final(v)@, next as int))
                &&& value_at(s@.push(10), p as int, field, old(v)@) == Some(
                    (final(v)@, next as int),
                )
                &&& p < next <= s@.len()
            },
            None => {
                &&& value_at(s@, p as int, field, old(v)@) is None
                &&& value_at(s@.push(10), p as int, field, old(v)@) is None
            },
        },
{
    let rest: &[u8] = slice_subrange(s, p, s.len());
    assert(rest@ =~= s@.skip(p as int));
    assert(rest@.push(10) =~= s@.push(10).skip(p as int));
    match field {
        None => match read_value(rest) {
            Some(n) => Some(p + n),
            None => None,
        },
        Some(f) => {
            if held(v, f) {
                return None;
            }
            if f == Field::D || f == Field::C {
                match read_text(rest) {
                    Some((text, n)) => {
                        if f == Field::D {
                            v.d = Some(text);
                        } else {
                            v.c = Some(text);
                        }
                        Some(p + n)
                    },
                    None => None,
                }
            } else {
                match read_i64(rest) {
                    Some((number, n)) => {
                        match f {
                            Field::I => {
                                v.i = Some(number);
                            },
                            Field::T => {
                                v.t = Some(number);
                            },
                            Field::X => {
                                v.x = Some(number);
                            },
                            _ => {
                                v.m = Some(number);
                            },
                        }
                        Some(p + n)
                    },
                    None => None,
                }
            }
        },
    }
}

fn take_member(s: &[u8], q: usize, shape: Shape, v: &mut Values) -> (r: Option<usize>)
    requires
        q <= s@.len(),
    ensures
        match r {
            Some(next) => {
                &&& member_at(s@, q as int, shape, old(v)@) == Some((final(v)@, next as int))
                &&& member_at(s@.push(10), q as int, shape, old(v)@) == Some(
                    (final(v)@, next as int),
                )
                &&& q < next <= s@.len()
            },
            None => {
                &&& member_at(s@, q as int, shape, old(v)@) is None
                &&& member_at(s@.push(10), q as int, shape, old(v)@) is None
            },
        },
{
    if q >= s.len() || s[q] != 34 {
        return None;
    }
    let rest: &[u8] = slice_subrange(s, q, s.len());
    assert(rest@ =~= s@.skip(q as int));
    assert(rest@.push(10) =~= s@.push(10).skip(q as int));
    match read_text(rest) {
        Some((key, n)) => {
            let colon: usize = space_end(s, q + n);
            if colon >= s.len() || s[colon] != 58 {
                return None;
            }
            let field: Option<Field> = named(shape, key.as_str());
            take_value(s, colon + 1, field, v)
        },
        None => None,
    }
}

fn take_members(s: &[u8], from: usize, shape: Shape, v: &mut Values) -> (r: Option<usize>)
    requires
        from <= s@.len(),
    ensures
        match r {
            Some(next) => {
                &&& members(s@, from as int, true, shape, old(v)@) == Some(
                    (final(v)@, next as int),
                )
                &&& members(s@.push(10), from as int, true, shape, old(v)@) == Some(
                    (final(v)@, next as int),
                )
                &&& next <= s@.len()
            },
            None => {
                &&& members(s@, from as int, true, shape, old(v)@) is None
                &&& members(s@.push(10), from as int, true, shape, old(v)@) is None
            },
        },
{
    reveal(members);
    let mut p: usize = from;
    let mut first: bool = true;
    let ghost start = v@;
    loop
        invariant
            from <= p <= s@.len(),
            members(s@, from as int, true, shape, start) == members(
                s@,
                p as int,
                first,
                shape,
                v@,
            ),
            members(s@.push(10), from as int, true, shape, start) == members(
                s@.push(10),
                p as int,
                first,
                shape,
                v@,
            ),
            start == old(v)@,
        decreases s@.len() - p,
    {
        reveal(members);
        let here: usize = space_end(s, p);
        if here >= s.len() {
            return None;
        }
        if s[here] == 125 {
            return Some(here + 1);
        }
        if !first && s[here] != 44 {
            return None;
        }
        let key: usize = if first { here } else { space_end(s, here + 1) };
        match take_member(s, key, shape, v) {
            Some(next) => {
                p = next;
                first = false;
            },
            None => {
                return None;
            },
        }
    }
}

fn nth_field(shape: Shape, k: usize) -> (r: Option<Field>)
    ensures
        match r {
            Some(f) => k < fields_of(shape).len() && f == fields_of(shape)[k as int],
            None => k >= fields_of(shape).len(),
        },
{
    match shape {
        Shape::Stored => match k {
            0 => Some(Field::I),
            1 => Some(Field::T),
            2 => Some(Field::D),
            3 => Some(Field::X),
            4 => Some(Field::C),
            5 => Some(Field::M),
            _ => None,
        },
        Shape::Plain => match k {
            0 => Some(Field::T),
            1 => Some(Field::D),
            2 => Some(Field::X),
            3 => Some(Field::C),
            4 => Some(Field::M),
            _ => None,
        },
        Shape::Running => match k {
            0 => Some(Field::T),
            1 => Some(Field::D),
            2 => Some(Field::C),
            _ => None,
        },
    }
}

fn take_elements(s: &[u8], from: usize, shape: Shape, v: &mut Values) -> (r: Option<usize>)
    requires
        from <= s@.len(),
    ensures
        match r {
            Some(next) => {
                &&& elements(s@, from as int, 0, shape, old(v)@) == Some(
                    (final(v)@, next as int),
                )
                &&& elements(s@.push(10), from as int, 0, shape, old(v)@) == Some(
                    (final(v)@, next as int),
                )
                &&& next <= s@.len()
            },
            None => {
                &&& elements(s@, from as int, 0, shape, old(v)@) is None
                &&& elements(s@.push(10), from as int, 0, shape, old(v)@) is None
            },
        },
{
    let mut p: usize = from;
    let mut k: usize = 0;
    let ghost start = v@;
    loop
        invariant
            from <= p <= s@.len(),
            k <= p,
            elements(s@, from as int, 0, shape, start) == elements(
                s@,
                p as int,
                k as int,
                shape,
                v@,
            ),
            elements(s@.push(10), from as int, 0, shape, start) == elements(
                s@.push(10),
                p as int,
                k as int,
                shape,
                v@,
            ),
            start == old(v)@,
        decreases s@.len() - p,
    {
        let here: usize = space_end(s, p);
        if here >= s.len() {
            return None;
        }
        if s[here] == 93 {
            return Some(here + 1);
        }
        match nth_field(shape, k) {
            None => {
                return None;
            },
            Some(field) => {
                if k > 0 && s[here] != 44 {
                    return None;
                }
                let element: usize = if k == 0 { here } else { space_end(s, here + 1) };
                if element >= s.len() || (k > 0 && s[element] == 93) {
                    return None;
                }
                match take_value(s, element, Some(field), v) {
                    Some(next) => {
                        p = next;
                        k = k + 1;
                    },
                    None => {
                        return None;
                    },
                }
            },
        }
    }
}

/// Reads the record that `s` holds; None where it holds none of that shape. A
/// newline behind it changes nothing.
pub fn parse_record(s: &[u8], shape: Shape) -> (r: Option<Values>)
    ensures
        match r {
            Some(v) => record(s@, shape) == Some(v@),
            None => record(s@, shape) is None,
        },
        match r {
            Some(v) => record(s@.push(10), shape) == Some(v@),
            None => record(s@.push(10), shape) is None,
        },
{
    let p: usize = space_end(s, 0);
    if p >= s.len() {
        return None;
    }
    let mut v: Values = Values { i: None, t: None, d: None, x: None, c: None, m: None };
    let read: Option<usize> = if s[p] == 123 {
        take_members(s, p + 1, shape, &mut v)
    } else if s[p] == 91 {
        take_elements(s, p + 1, shape, &mut v)
    } else {
        None
    };
    match read {
        Some(next) => if space_end(s, next) == s.len() {
            Some(v)
        } else {
            None
        },
        None => None,
    }
}

/// An integer as JSON writes it.
pub open spec fn json_i64(n: i64) -> Seq<u8> {
    ascii(decimal(n as int))
}

/// A member of an object: the field's letter and its value.
pub open spec fn member(f: Field, value: Seq<u8>) -> Seq<u8> {
    quoted(seq![letter(f)]) + seq![58u8] + value
}

/// A further member of an object, and what follows it.
pub open spec fn more(f: Field, value: Seq<u8>, rest: Seq<u8>) -> Seq<u8> {
    seq![44u8] + member(f, value) + rest
}

/// The object of a stored entry. A duration of zero is left out.
#[verifier::opaque]
pub open spec fn stored_object(
    i: i64,
    t: i64,
    d: Seq<char>,
    x: i64,
    c: Seq<char>,
    m: i64,
) -> Seq<u8> {
    seq![123u8] + member(Field::I, json_i64(i)) + more(
        Field::T,
        json_i64(t),
        more(
            Field::D,
            json_text(d),
            more(
                Field::X,
                json_i64(x),
                more(
                    Field::C,
                    json_text(c),
                    if m == 0 {
                        seq![125u8]
                    } else {
                        more(Field::M, json_i64(m), seq![125u8])
                    },
                ),
            ),
        ),
    )
}

/// The object of a running command.
pub open spec fn running_object(t: i64, d: Seq<char>, c: Seq<char>) -> Seq<u8> {
    seq![123u8] + member(Field::T, json_i64(t)) + more(
        Field::D,
        json_text(d),
        more(Field::C, json_text(c), seq![125u8]),
    )
}

/// Whether the bytes of `b` read as the text `s` whatever follows them.
spec fn reads_text(b: Seq<u8>, s: Seq<char>) -> bool {
    forall|rest: Seq<u8>| #[trigger] json_text_at(b + rest) == Some((s, b.len() as int))
}

/// Whether the bytes of `b` read as `n` inside an object.
spec fn reads_i64(b: Seq<u8>, n: i64) -> bool {
    forall|rest: Seq<u8>|
        ends_number(rest) ==> #[trigger] json_i64_at(b + rest) == Some((n, b.len() as int))
}

/// Whether no byte of `b` is below a space.
spec fn no_breaks(b: Seq<u8>) -> bool {
    forall|i: int| 0 <= i < b.len() ==> #[trigger] b[i] >= 32
}

/// The value of `f` as `value` writes it.
spec fn reads_as(f: Field, value: Seq<u8>, v: ValuesView, w: ValuesView) -> bool {
    if f == Field::D || f == Field::C {
        exists|s: Seq<char>| #[trigger] reads_text(value, s) && w == with_text(v, f, s)
    } else {
        exists|n: i64| #[trigger] reads_i64(value, n) && w == with_i64(v, f, n)
    }
}

proof fn lemma_skip_none(s: Seq<u8>, p: int)
    requires
        0 <= p < s.len(),
        !is_json_space(s[p]),
    ensures
        skip_space(s, p) == p,
{
}

/// Reading a member that was written gives its value.
proof fn lemma_member_read(
    s: Seq<u8>,
    p: int,
    first: bool,
    shape: Shape,
    f: Field,
    value: Seq<u8>,
    rest: Seq<u8>,
    v: ValuesView,
    w: ValuesView,
)
    requires
        0 <= p <= s.len(),
        s.skip(p) == (if first {
            member(f, value) + rest
        } else {
            more(f, value, rest)
        }),
        ends_number(rest),
        reads_text(quoted(seq![letter(f)]), seq![letter(f)]),
        reads_as(f, value, v, w),
        !holds(v, f),
        field_named(shape, seq![letter(f)]) == Some(f),
    ensures
        ({
            let next = s.len() - rest.len();
            &&& p < next <= s.len()
            &&& members(s, p, first, shape, v) == members(s, next, false, shape, w)
            &&& s.skip(next) == rest
        }),
{
    reveal(members);
    let key_bytes = quoted(seq![letter(f)]);
    let whole = s.skip(p);
    assert(forall|j: int| 0 <= j < whole.len() ==> whole[j] == s[p + j]);
    let key = if first {
        p
    } else {
        p + 1
    };
    let after_key = seq![58u8] + value + rest;
    assert(key_bytes.len() == 3);
    assert(s.skip(key) =~= key_bytes + after_key) by {
        assert(s.skip(key) =~= whole.skip(key - p));
        if first {
            assert(whole.skip(0) =~= whole);
            assert(member(f, value) + rest =~= key_bytes + after_key);
        } else {
            assert(more(f, value, rest).skip(1) =~= key_bytes + after_key);
        }
    }
    let tail = s.skip(key);
    assert(forall|j: int| 0 <= j < tail.len() ==> tail[j] == s[key + j]);
    assert(tail[0] == 34);
    assert(s[key] == 34);
    if !first {
        assert(whole[0] == 44);
        assert(s[p] == 44);
        lemma_skip_none(s, p);
    }
    lemma_skip_none(s, key);
    assert(json_text_at(key_bytes + after_key) == Some((seq![letter(f)], 3int)));
    let colon = key + 3;
    assert(tail[3] == 58);
    assert(s[colon] == 58);
    lemma_skip_none(s, colon);
    let from = colon + 1;
    assert(s.skip(from) =~= value + rest) by {
        assert(s.skip(from) =~= tail.skip(4));
        assert((key_bytes + after_key).skip(4) =~= value + rest);
    }
    let next = from + value.len();
    assert(next == s.len() - rest.len()) by {
        assert(s.skip(from).len() == s.len() - from);
        assert((value + rest).len() == value.len() + rest.len());
    }
    assert(s.skip(next) =~= rest) by {
        assert(s.skip(next) =~= s.skip(from).skip(value.len() as int));
        assert((value + rest).skip(value.len() as int) =~= rest);
    }
    assert(value_at(s, from, Some(f), v) == Some((w, next)));
    assert(member_at(s, key, shape, v) == Some((w, next)));
}

/// Appends a member to the object in `out`.
fn put_text(out: &mut Vec<u8>, first: bool, f: Field, s: &str)
    requires
        f == Field::D || f == Field::C,
    ensures
        final(out)@ == old(out)@ + (if first {
            member(f, json_text(s@))
        } else {
            seq![44u8] + member(f, json_text(s@))
        }),
        reads_text(quoted(seq![letter(f)]), seq![letter(f)]),
        reads_text(json_text(s@), s@),
        is_closed(json_text(s@)),
{
    let ghost before = out@;
    if !first {
        out.push(44);
    }
    put_key(out, f);
    let mut value: Vec<u8> = write_text(s);
    out.append(&mut value);
    assert(out@ =~= before + (if first {
        member(f, json_text(s@))
    } else {
        seq![44u8] + member(f, json_text(s@))
    }));
}

/// Appends a member to the object in `out`.
fn put_i64(out: &mut Vec<u8>, first: bool, f: Field, n: i64)
    ensures
        final(out)@ == old(out)@ + (if first {
            member(f, json_i64(n))
        } else {
            seq![44u8] + member(f, json_i64(n))
        }),
        reads_text(quoted(seq![letter(f)]), seq![letter(f)]),
        reads_i64(json_i64(n), n),
{
    let ghost before = out@;
    if !first {
        out.push(44);
    }
    put_key(out, f);
    let mut value: Vec<u8> = write_i64(n);
    out.append(&mut value);
    assert(out@ =~= before + (if first {
        member(f, json_i64(n))
    } else {
        seq![44u8] + member(f, json_i64(n))
    }));
}

fn put_key(out: &mut Vec<u8>, f: Field)
    ensures
        final(out)@ == old(out)@ + quoted(seq![letter(f)]) + seq![58u8],
        reads_text(quoted(seq![letter(f)]), seq![letter(f)]),
{
    let ghost before = out@;
    let mut key: String = String::new();
    match f {
        Field::I => {
            key.push('i');
        },
        Field::T => {
            key.push('t');
        },
        Field::D => {
            key.push('d');
        },
        Field::X => {
            key.push('x');
        },
        Field::C => {
            key.push('c');
        },
        Field::M => {
            key.push('m');
        },
    }
    assert(key@ =~= seq![letter(f)]);
    assert(is_plain(key@));
    proof {
        law_plain_text_is_quoted(key@);
    }
    let mut bytes: Vec<u8> = write_text(key.as_str());
    out.append(&mut bytes);
    out.push(58);
    assert(out@ =~= before + quoted(seq![letter(f)]) + seq![58u8]);
}

proof fn lemma_i64_inert(n: i64)
    ensures
        is_inert(json_i64(n)),
{
    let magnitude = if n < 0 {
        (-n) as nat
    } else {
        n as nat
    };
    lemma_digits_number(magnitude, 10);
    let d = digits(magnitude, 10);
    let text = decimal(n as int);
    assert forall|j: int| 0 <= j < json_i64(n).len() implies !is_json_space(
        #[trigger] json_i64(n)[j],
    ) && json_i64(n)[j] != 123 && json_i64(n)[j] != 91 by {
        if n < 0 {
            if j > 0 {
                assert(text[j] == d[j - 1]);
                assert(digit_value(d[j - 1]) is Some);
            } else {
                assert(text[j] == '-');
            }
        } else {
            assert(digit_value(d[j]) is Some);
        }
    }
}

proof fn lemma_i64_no_breaks(n: i64)
    ensures
        no_breaks(json_i64(n)),
{
    let magnitude = if n < 0 {
        (-n) as nat
    } else {
        n as nat
    };
    lemma_digits_number(magnitude, 10);
    let d = digits(magnitude, 10);
    let text = decimal(n as int);
    assert forall|j: int| 0 <= j < json_i64(n).len() implies #[trigger] json_i64(n)[j] >= 32 by {
        if n < 0 {
            if j > 0 {
                assert(text[j] == d[j - 1]);
                assert(digit_value(d[j - 1]) is Some);
            } else {
                assert(text[j] == '-');
            }
        } else {
            assert(digit_value(d[j]) is Some);
        }
    }
}

/// The end of an object that was written, and of the bytes around it.
proof fn lemma_object_end(s: Seq<u8>, p: int, shape: Shape, v: ValuesView, tail: Seq<u8>)
    requires
        0 <= p <= s.len(),
        s.skip(p) == seq![125u8] + tail,
        tail.len() == 0 || tail == seq![10u8],
    ensures
        members(s, p, false, shape, v) == Some((v, p + 1)),
        skip_space(s, p + 1) == s.len(),
{
    reveal(members);
    let whole = s.skip(p);
    assert(whole[0] == 125);
    assert(s[p] == 125);
    lemma_skip_none(s, p);
    assert(whole.len() == 1 + tail.len());
    if tail.len() > 0 {
        assert(whole[1] == 10);
        assert(s[p + 1] == 10);
        reveal_with_fuel(skip_space, 2);
    }
}

/// Values of a stored entry as its object gives them.
pub open spec fn stored_values(
    i: i64,
    t: i64,
    d: Seq<char>,
    x: i64,
    c: Seq<char>,
    m: i64,
) -> ValuesView {
    ValuesView {
        i: Some(i),
        t: Some(t),
        d: Some(d),
        x: Some(x),
        c: Some(c),
        m: if m == 0 {
            None
        } else {
            Some(m)
        },
    }
}

/// Writes the object of a stored entry. With or without a line feed after it,
/// it reads back as the same values; it holds no line feed itself.
pub fn write_stored(i: i64, t: i64, d: &str, x: i64, c: &str, m: i64) -> (r: Vec<u8>)
    ensures
        r@ == stored_object(i, t, d@, x, c@, m),
        record(r@, Shape::Stored) == Some(stored_values(i, t, d@, x, c@, m)),
        record(r@.push(10), Shape::Stored) == Some(stored_values(i, t, d@, x, c@, m)),
        forall|j: int| 0 <= j < r@.len() ==> #[trigger] r@[j] >= 32,
        forall|p: int|
            0 < p <= r@.len() ==> #[trigger] record(r@.push(10).skip(p), Shape::Stored) is None,
{
    proof {
        reveal(stored_object);
    }
    let ghost end: Seq<u8> = seq![125u8];
    let ghost from_m: Seq<u8> = if m == 0 { end } else { more(Field::M, json_i64(m), end) };
    let ghost from_c = more(Field::C, json_text(c@), from_m);
    let ghost from_x = more(Field::X, json_i64(x), from_c);
    let ghost from_d = more(Field::D, json_text(d@), from_x);
    let ghost from_t = more(Field::T, json_i64(t), from_d);
    let ghost object = stored_object(i, t, d@, x, c@, m);
    let mut out: Vec<u8> = Vec::new();
    out.push(123);
    put_i64(&mut out, true, Field::I, i);
    assert(out@ + from_t =~= object);
    put_i64(&mut out, false, Field::T, t);
    assert(out@ + from_d =~= object);
    put_text(&mut out, false, Field::D, d);
    assert(out@ + from_x =~= object);
    put_i64(&mut out, false, Field::X, x);
    assert(out@ + from_c =~= object);
    put_text(&mut out, false, Field::C, c);
    assert(out@ + from_m =~= object);
    if m != 0 {
        put_i64(&mut out, false, Field::M, m);
        assert(out@ + end =~= object);
    }
    out.push(125);
    assert(out@ =~= object);
    proof {
        lemma_i64_no_breaks(i);
        lemma_i64_no_breaks(t);
        lemma_i64_no_breaks(x);
        lemma_i64_no_breaks(m);
        law_text_is_a_string(d@);
        law_text_is_a_string(c@);
        assert(no_breaks(from_m));
        assert(no_breaks(from_c));
        assert(no_breaks(from_x));
        assert(no_breaks(from_d));
        assert(no_breaks(from_t));
        assert(no_breaks(object));
        assert(seq![10u8] =~= Seq::<u8>::empty().push(10));
        assert(object + seq![10u8] =~= object.push(10));
        assert(object + Seq::<u8>::empty() =~= object);
        lemma_stored_read(i, t, d@, x, c@, m, Seq::empty());
        lemma_stored_read(i, t, d@, x, c@, m, seq![10u8]);
        assert forall|p: int| 0 < p <= object.len() implies #[trigger] record(
            object.push(10).skip(p),
            Shape::Stored,
        ) is None by {
            lemma_nothing_inside(i, t, d@, x, c@, m, p);
        }
    }
    out
}

proof fn lemma_skip_stops(s: Seq<u8>, p: int, end: int)
    requires
        0 <= p <= end < s.len(),
        !is_json_space(s[end]),
    ensures
        p <= skip_space(s, p) <= end,
        !is_json_space(s[skip_space(s, p)]),
        forall|k: int| p <= k < skip_space(s, p) ==> is_json_space(#[trigger] s[k]),
    decreases end - p,
{
    if is_json_space(s[p]) {
        lemma_skip_stops(s, p + 1, end);
    }
}

/// What follows a text in an object: a further member or the object's end.
spec fn follows_text(rest: Seq<u8>) -> bool {
    ||| rest.len() > 2 && rest[0] == 44 && rest[1] == 34 && (rest[2] == letter(Field::X) as u8
        || rest[2] == letter(Field::M) as u8)
    ||| !rest.contains(34)
}

/// Inside a text, a quotation mark that stands behind no backslash is the one
/// at its end.
proof fn lemma_last_mark(b: Seq<u8>, i: int, rest: Seq<u8>, at: int)
    requires
        is_string(b),
        0 < i < b.len(),
        0 < at < b.len() - i,
        (b.skip(i) + rest)[at] == 34,
        (b.skip(i) + rest)[at - 1] != 92,
    ensures
        at == b.len() - i - 1,
{
    let s = b.skip(i) + rest;
    assert(s[at] == b[i + at]);
    assert(s[at - 1] == b[i + at - 1]);
}

/// The elements of an array that starts inside a text end before the text
/// does, if they are elements at all.
proof fn lemma_elements_inside(
    b: Seq<u8>,
    i: int,
    rest: Seq<u8>,
    p: int,
    k: int,
    v: ValuesView,
)
    requires
        is_string(b),
        is_closed(b),
        follows_text(rest),
        0 < i < b.len(),
        0 < p < b.len() - i,
        0 <= k <= 2,
        k == 0 ==> (b.skip(i) + rest)[p - 1] != 92,
    ensures
        elements(b.skip(i) + rest, p, k, Shape::Stored, v) matches Some((_, next)) ==> next
            < b.len() - i,
    decreases 2 - k,
{
    let s = b.skip(i) + rest;
    let end = b.len() - i - 1;
    assert(s[end] == b[b.len() - 1]);
    lemma_skip_stops(s, p, end);
    let here = skip_space(s, p);
    if !at(s, here, 93) && (k == 0 || at(s, here, 44)) {
        if k > 0 {
            lemma_skip_stops(s, here + 1, end);
        }
        let element = if k == 0 {
            here
        } else {
            skip_space(s, here + 1)
        };
        assert(s.skip(element) =~= b.skip(i + element) + rest);
        if k < 2 {
            if let Some((w, next)) = value_at(s, element, Some(fields_of(Shape::Stored)[k]), v) {
                assert(json_i64_at(b.skip(i + element) + rest) is Some);
                if p < next {
                    lemma_elements_inside(b, i, rest, next, k + 1, w);
                }
            }
        } else {
            assert(s[element] == b[i + element]);
            if s[element] == 34 {
                assert(s[element - 1] == 44 || is_json_space(s[element - 1]));
                lemma_last_mark(b, i, rest, element);
                assert(s.skip(element) =~= b.skip(b.len() - 1) + rest);
                if !rest.contains(34) {
                    assert(json_text_at(b.skip(b.len() - 1) + rest) is None);
                } else {
                    assert(json_text_at(b.skip(b.len() - 1) + rest) == Some((seq![','], 3int)));
                    assert(s[element + 3] == rest[2]);
                    if let Some((w, next)) = value_at(s, element, Some(Field::D), v) {
                        assert(skip_space(s, next) == next);
                        assert(elements(s, next, 3, Shape::Stored, w) is None);
                    }
                }
            }
        }
    }
}

/// No record starts inside a text.
proof fn lemma_no_record_inside(b: Seq<u8>, i: int, rest: Seq<u8>)
    requires
        is_string(b),
        is_closed(b),
        follows_text(rest),
        0 < i < b.len(),
    ensures
        record(b.skip(i) + rest, Shape::Stored) is None,
{
    let s = b.skip(i) + rest;
    let end = b.len() - i - 1;
    assert(s[end] == b[b.len() - 1]);
    lemma_skip_stops(s, 0, end);
    let p = skip_space(s, 0);
    if at(s, p, 123) {
        reveal(members);
        lemma_skip_stops(s, p + 1, end);
        let here = skip_space(s, p + 1);
        if at(s, here, 125) {
            lemma_skip_stops(s, here + 1, end);
        } else if at(s, here, 34) {
            assert(here - 1 == p || is_json_space(s[here - 1]));
            lemma_last_mark(b, i, rest, here);
            assert(s.skip(here) =~= b.skip(b.len() - 1) + rest);
            if !rest.contains(34) {
                assert(json_text_at(b.skip(b.len() - 1) + rest) is None);
            } else {
                assert(json_text_at(b.skip(b.len() - 1) + rest) == Some((seq![','], 3int)));
                assert(s[here + 3] == rest[2]);
                assert(skip_space(s, here + 3) == here + 3);
            }
            assert(member_at(s, here, Shape::Stored, no_values()) is None);
        }
    } else if at(s, p, 91) {
        lemma_elements_inside(b, i, rest, p + 1, 0, no_values());
        if let Some((_, next)) = elements(s, p + 1, 0, Shape::Stored, no_values()) {
            lemma_elements_start(s, p + 1, 0, Shape::Stored, no_values());
            lemma_skip_stops(s, next, end);
        }
    }
}

/// Elements are read from left to right.
proof fn lemma_elements_start(s: Seq<u8>, p: int, k: int, shape: Shape, v: ValuesView)
    requires
        0 <= p <= s.len(),
    ensures
        elements(s, p, k, shape, v) matches Some((_, next)) ==> p < next,
    decreases s.len() - p,
{
    lemma_skip_space(s, p);
    let here = skip_space(s, p);
    if !at(s, here, 93) && k < fields_of(shape).len() {
        let element = if k == 0 {
            here
        } else {
            skip_space(s, here + 1)
        };
        if let Some((w, next)) = value_at(s, element, Some(fields_of(shape)[k]), v) {
            if p < next <= s.len() {
                lemma_elements_start(s, next, k + 1, shape, w);
            }
        }
    }
}

/// Whether no byte of `b` can start a record.
spec fn is_inert(b: Seq<u8>) -> bool {
    forall|j: int|
        0 <= j < b.len() ==> !is_json_space(#[trigger] b[j]) && b[j] != 123 && b[j] != 91
}

proof fn lemma_inert_member(f: Field, n: i64)
    ensures
        is_inert(quoted(seq![letter(f)])),
        is_inert(member(f, json_i64(n))),
{
    lemma_i64_inert(n);
    let key = quoted(seq![letter(f)]);
    assert(seq![letter(f)][0] == letter(f));
    assert(key.len() == 3);
    assert(is_inert(key));
    let all = member(f, json_i64(n));
    assert forall|j: int| 0 <= j < all.len() implies !is_json_space(#[trigger] all[j]) && all[j]
        != 123 && all[j] != 91 by {
        if j < 3 {
            assert(all[j] == key[j]);
        } else if j > 3 {
            assert(all[j] == json_i64(n)[j - 4]);
        }
    }
}

/// A record does not start at a byte that can start none.
proof fn lemma_inert_start(s: Seq<u8>)
    requires
        s.len() > 0,
        !is_json_space(s[0]) && s[0] != 123 && s[0] != 91 || s == seq![10u8],
    ensures
        record(s, Shape::Stored) is None,
{
    if s == seq![10u8] {
        reveal_with_fuel(skip_space, 2);
        assert(skip_space(s, 0) == 1);
    } else {
        assert(skip_space(s, 0) == 0);
    }
}

/// The line of a stored entry without its texts: what stands before, between
/// and behind them.
spec fn before_dir(i: i64, t: i64) -> Seq<u8> {
    member(Field::I, json_i64(i)) + (seq![44u8] + (member(Field::T, json_i64(t)) + (seq![44u8] + (
    quoted(seq![letter(Field::D)]) + seq![58u8]))))
}

spec fn before_cmd(x: i64) -> Seq<u8> {
    seq![44u8] + (member(Field::X, json_i64(x)) + (seq![44u8] + (quoted(seq![letter(Field::C)])
        + seq![58u8])))
}

spec fn behind_cmd(m: i64) -> Seq<u8> {
    if m == 0 {
        seq![125u8]
    } else {
        seq![44u8] + (member(Field::M, json_i64(m)) + seq![125u8])
    }
}

/// A line made of an opening brace, two texts, and what stands around them.
spec fn pieced(
    before: Seq<u8>,
    dir: Seq<u8>,
    between: Seq<u8>,
    cmd: Seq<u8>,
    behind: Seq<u8>,
) -> Seq<u8> {
    seq![123u8] + (before + (dir + (between + (cmd + (behind + seq![10u8])))))
}

proof fn lemma_inert_add(a: Seq<u8>, b: Seq<u8>)
    requires
        is_inert(a),
        is_inert(b),
    ensures
        is_inert(a + b),
{
    let all = a + b;
    assert forall|j: int| 0 <= j < all.len() implies !is_json_space(#[trigger] all[j]) && all[j]
        != 123 && all[j] != 91 by {
        if j < a.len() {
            assert(all[j] == a[j]);
        } else {
            assert(all[j] == b[j - a.len()]);
        }
    }
}

proof fn lemma_inert_parts(i: i64, t: i64, x: i64, m: i64)
    ensures
        is_inert(before_dir(i, t)),
        is_inert(before_cmd(x)),
        is_inert(behind_cmd(m)),
{
    let comma = seq![44u8];
    let colon = seq![58u8];
    let brace = seq![125u8];
    lemma_inert_member(Field::I, i);
    lemma_inert_member(Field::T, t);
    lemma_inert_member(Field::D, 0);
    lemma_inert_member(Field::X, x);
    lemma_inert_member(Field::C, 0);
    lemma_inert_member(Field::M, m);
    let d = quoted(seq![letter(Field::D)]);
    lemma_inert_add(d, colon);
    lemma_inert_add(comma, d + colon);
    lemma_inert_add(member(Field::T, json_i64(t)), comma + (d + colon));
    let from_t = member(Field::T, json_i64(t)) + (comma + (d + colon));
    lemma_inert_add(comma, from_t);
    lemma_inert_add(member(Field::I, json_i64(i)), comma + from_t);
    let c = quoted(seq![letter(Field::C)]);
    lemma_inert_add(c, colon);
    lemma_inert_add(comma, c + colon);
    lemma_inert_add(member(Field::X, json_i64(x)), comma + (c + colon));
    lemma_inert_add(comma, member(Field::X, json_i64(x)) + (comma + (c + colon)));
    lemma_inert_add(member(Field::M, json_i64(m)), brace);
    lemma_inert_add(comma, member(Field::M, json_i64(m)) + brace);
}

proof fn lemma_stored_pieces(i: i64, t: i64, d: Seq<char>, x: i64, c: Seq<char>, m: i64)
    ensures
        stored_object(i, t, d, x, c, m).push(10) == pieced(
            before_dir(i, t),
            json_text(d),
            before_cmd(x),
            json_text(c),
            behind_cmd(m),
        ),
{
    reveal(stored_object);
    let close = if m == 0 {
        seq![125u8]
    } else {
        more(Field::M, json_i64(m), seq![125u8])
    };
    assert(close =~= behind_cmd(m));
    let cmd = json_text(c);
    let dir = json_text(d);
    let from_c = more(Field::C, cmd, close);
    let from_x = more(Field::X, json_i64(x), from_c);
    assert(from_x =~= before_cmd(x) + (cmd + close));
    let from_d = more(Field::D, dir, from_x);
    let from_t = more(Field::T, json_i64(t), from_d);
    assert(member(Field::I, json_i64(i)) + from_t =~= before_dir(i, t) + (dir + from_x));
    assert(stored_object(i, t, d, x, c, m) =~= seq![123u8] + (before_dir(i, t) + (dir + from_x)));
    assert((seq![123u8] + (before_dir(i, t) + (dir + (before_cmd(x) + (cmd + close))))).push(10)
        =~= pieced(before_dir(i, t), dir, before_cmd(x), cmd, close));
}

/// The object of a stored entry is little longer than its texts.
pub proof fn law_object_is_little_longer(
    i: i64,
    t: i64,
    d: Seq<char>,
    x: i64,
    c: Seq<char>,
    m: i64,
)
    ensures
        stored_object(i, t, d, x, c, m).len() <= 6 * d.len() + 6 * c.len() + 120,
{
    lemma_stored_pieces(i, t, d, x, c, m);
    law_text_is_a_string(d);
    law_text_is_a_string(c);
    lemma_decimal_length(i as int);
    lemma_decimal_length(t as int);
    lemma_decimal_length(x as int);
    lemma_decimal_length(m as int);
    assert forall|f: Field, n: i64| #[trigger]
        member(f, json_i64(n)).len() == 4 + json_i64(n).len() by {
        assert(quoted(seq![letter(f)]).len() == 3);
    }
    assert(quoted(seq![letter(Field::D)]).len() == 3);
    assert(quoted(seq![letter(Field::C)]).len() == 3);
    assert(before_dir(i, t).len() <= 54);
    assert(before_cmd(x).len() <= 30);
    assert(behind_cmd(m).len() <= 26);
    let line = stored_object(i, t, d, x, c, m).push(10);
    assert(line.len() == stored_object(i, t, d, x, c, m).len() + 1);
    assert(line.len() == 2 + before_dir(i, t).len() + json_text(d).len() + before_cmd(x).len()
        + json_text(c).len() + behind_cmd(m).len());
}

/// No record starts inside a line of such pieces.
proof fn lemma_no_record_in_pieces(
    before: Seq<u8>,
    dir: Seq<u8>,
    between: Seq<u8>,
    cmd: Seq<u8>,
    behind: Seq<u8>,
    p: int,
)
    requires
        is_inert(before),
        is_inert(between),
        is_inert(behind),
        is_string(dir),
        is_string(cmd),
        is_closed(dir),
        is_closed(cmd),
        follows_text(between + (cmd + (behind + seq![10u8]))),
        follows_text(behind + seq![10u8]),
        0 < p < pieced(before, dir, between, cmd, behind).len(),
    ensures
        record(pieced(before, dir, between, cmd, behind).skip(p), Shape::Stored) is None,
{
    let line = pieced(before, dir, between, cmd, behind);
    let s = line.skip(p);
    let after_cmd = behind + seq![10u8];
    let after_dir = between + (cmd + after_cmd);
    let at_dir = 1 + before.len();
    let at_between = at_dir + dir.len();
    let at_cmd = at_between + between.len();
    let at_close = at_cmd + cmd.len();
    assert(s[0] == line[p]);
    if p < at_dir {
        assert(s[0] == before[p - 1]);
        lemma_inert_start(s);
    } else if p == at_dir {
        assert(s[0] == dir[0]);
        lemma_inert_start(s);
    } else if p < at_between {
        assert(s =~= dir.skip(p - at_dir) + after_dir);
        lemma_no_record_inside(dir, p - at_dir, after_dir);
    } else if p < at_cmd {
        assert(s[0] == between[p - at_between]);
        lemma_inert_start(s);
    } else if p == at_cmd {
        assert(s[0] == cmd[0]);
        lemma_inert_start(s);
    } else if p < at_close {
        assert(s =~= cmd.skip(p - at_cmd) + after_cmd);
        lemma_no_record_inside(cmd, p - at_cmd, after_cmd);
    } else if p < line.len() - 1 {
        assert(s[0] == behind[p - at_close]);
        lemma_inert_start(s);
    } else {
        assert(s =~= seq![10u8]);
        lemma_inert_start(s);
    }
}

/// No record starts inside the line of a stored entry.
proof fn lemma_nothing_inside(i: i64, t: i64, d: Seq<char>, x: i64, c: Seq<char>, m: i64, p: int)
    requires
        is_closed(json_text(d)),
        is_closed(json_text(c)),
        0 < p <= stored_object(i, t, d, x, c, m).len(),
    ensures
        record(stored_object(i, t, d, x, c, m).push(10).skip(p), Shape::Stored) is None,
{
    let behind = behind_cmd(m);
    let after_cmd = behind + seq![10u8];
    let after_dir = before_cmd(x) + (json_text(c) + after_cmd);
    law_text_is_a_string(d);
    law_text_is_a_string(c);
    lemma_inert_parts(i, t, x, m);
    lemma_stored_pieces(i, t, d, x, c, m);
    lemma_key_bytes(Field::X, json_i64(x));
    lemma_key_bytes(Field::M, json_i64(m));
    assert(after_dir[1] == member(Field::X, json_i64(x))[0]);
    assert(after_dir[2] == member(Field::X, json_i64(x))[1]);
    if m != 0 {
        assert(after_cmd[1] == member(Field::M, json_i64(m))[0]);
        assert(after_cmd[2] == member(Field::M, json_i64(m))[1]);
    } else {
        assert(!after_cmd.contains(34));
    }
    lemma_no_record_in_pieces(
        before_dir(i, t),
        json_text(d),
        before_cmd(x),
        json_text(c),
        behind,
        p,
    );
}

proof fn lemma_key_bytes(f: Field, value: Seq<u8>)
    ensures
        member(f, value).len() >= 4,
        member(f, value)[0] == 34,
        member(f, value)[1] == letter(f) as u8,
{
    let key = quoted(seq![letter(f)]);
    assert(seq![letter(f)][0] == letter(f));
    assert(key.len() == 3);
    assert(member(f, value)[0] == key[0]);
    assert(member(f, value)[1] == key[1]);
}

/// The members of a stored entry's object, one after the other.
proof fn lemma_stored_layout(
    i: i64,
    t: i64,
    d: Seq<char>,
    x: i64,
    c: Seq<char>,
    m: i64,
    tail: Seq<u8>,
)
    ensures
        ({
            let s = stored_object(i, t, d, x, c, m) + tail;
            let end = seq![125u8] + tail;
            let from_m = if m == 0 {
                end
            } else {
                more(Field::M, json_i64(m), end)
            };
            let from_c = more(Field::C, json_text(c), from_m);
            let from_x = more(Field::X, json_i64(x), from_c);
            let from_d = more(Field::D, json_text(d), from_x);
            let from_t = more(Field::T, json_i64(t), from_d);
            s.len() > 0 && s[0] == 123 && s.skip(1) == member(Field::I, json_i64(i)) + from_t
        }),
{
    reveal(stored_object);
    let end = seq![125u8] + tail;
    let from_m = if m == 0 {
        end
    } else {
        more(Field::M, json_i64(m), end)
    };
    let from_c = more(Field::C, json_text(c), from_m);
    let from_x = more(Field::X, json_i64(x), from_c);
    let from_d = more(Field::D, json_text(d), from_x);
    let from_t = more(Field::T, json_i64(t), from_d);
    let bare_m = if m == 0 {
        seq![125u8]
    } else {
        more(Field::M, json_i64(m), seq![125u8])
    };
    let bare_c = more(Field::C, json_text(c), bare_m);
    let bare_x = more(Field::X, json_i64(x), bare_c);
    let bare_d = more(Field::D, json_text(d), bare_x);
    let bare_t = more(Field::T, json_i64(t), bare_d);
    assert(bare_m + tail =~= from_m);
    lemma_more_tail(Field::C, json_text(c), bare_m, tail);
    lemma_more_tail(Field::X, json_i64(x), bare_c, tail);
    lemma_more_tail(Field::D, json_text(d), bare_x, tail);
    lemma_more_tail(Field::T, json_i64(t), bare_d, tail);
    let head = member(Field::I, json_i64(i));
    assert((seq![123u8] + head + bare_t + tail).skip(1) =~= head + (bare_t + tail));
}

proof fn lemma_more_tail(f: Field, value: Seq<u8>, rest: Seq<u8>, tail: Seq<u8>)
    ensures
        more(f, value, rest) + tail == more(f, value, rest + tail),
{
    assert(more(f, value, rest) + tail =~= more(f, value, rest + tail));
}

/// The object of a stored entry reads back as its values.
proof fn lemma_stored_read(
    i: i64,
    t: i64,
    d: Seq<char>,
    x: i64,
    c: Seq<char>,
    m: i64,
    tail: Seq<u8>,
)
    requires
        tail.len() == 0 || tail == seq![10u8],
        reads_i64(json_i64(i), i),
        reads_i64(json_i64(t), t),
        reads_i64(json_i64(x), x),
        m != 0 ==> reads_i64(json_i64(m), m),
        reads_text(json_text(d), d),
        reads_text(json_text(c), c),
        reads_text(quoted(seq![letter(Field::I)]), seq![letter(Field::I)]),
        reads_text(quoted(seq![letter(Field::T)]), seq![letter(Field::T)]),
        reads_text(quoted(seq![letter(Field::D)]), seq![letter(Field::D)]),
        reads_text(quoted(seq![letter(Field::X)]), seq![letter(Field::X)]),
        reads_text(quoted(seq![letter(Field::C)]), seq![letter(Field::C)]),
        m != 0 ==> reads_text(quoted(seq![letter(Field::M)]), seq![letter(Field::M)]),
    ensures
        record(stored_object(i, t, d, x, c, m) + tail, Shape::Stored) == Some(
            stored_values(i, t, d, x, c, m),
        ),
{
    let shape = Shape::Stored;
    let s = stored_object(i, t, d, x, c, m) + tail;
    let end = seq![125u8] + tail;
    let from_m = if m == 0 {
        end
    } else {
        more(Field::M, json_i64(m), end)
    };
    let from_c = more(Field::C, json_text(c), from_m);
    let from_x = more(Field::X, json_i64(x), from_c);
    let from_d = more(Field::D, json_text(d), from_x);
    let from_t = more(Field::T, json_i64(t), from_d);
    lemma_keys_differ();
    lemma_stored_layout(i, t, d, x, c, m, tail);
    assert(s[0] == 123);
    lemma_skip_none(s, 0);
    let v0 = no_values();
    let v1 = with_i64(v0, Field::I, i);
    let v2 = with_i64(v1, Field::T, t);
    let v3 = with_text(v2, Field::D, d);
    let v4 = with_i64(v3, Field::X, x);
    let v5 = with_text(v4, Field::C, c);
    lemma_member_read(s, 1, true, shape, Field::I, json_i64(i), from_t, v0, v1);
    let p1 = s.len() - from_t.len();
    lemma_member_read(s, p1, false, shape, Field::T, json_i64(t), from_d, v1, v2);
    let p2 = s.len() - from_d.len();
    lemma_member_read(s, p2, false, shape, Field::D, json_text(d), from_x, v2, v3);
    let p3 = s.len() - from_x.len();
    lemma_member_read(s, p3, false, shape, Field::X, json_i64(x), from_c, v3, v4);
    let p4 = s.len() - from_c.len();
    lemma_member_read(s, p4, false, shape, Field::C, json_text(c), from_m, v4, v5);
    let p5 = s.len() - from_m.len();
    if m == 0 {
        lemma_object_end(s, p5, shape, v5, tail);
    } else {
        let v6 = with_i64(v5, Field::M, m);
        lemma_member_read(s, p5, false, shape, Field::M, json_i64(m), end, v5, v6);
        let p6 = s.len() - end.len();
        lemma_object_end(s, p6, shape, v6, tail);
    }
}

proof fn lemma_keys_differ()
    ensures
        seq!['i'][0] == 'i',
        seq!['t'][0] == 't',
        seq!['d'][0] == 'd',
        seq!['x'][0] == 'x',
        seq!['c'][0] == 'c',
        seq!['m'][0] == 'm',
{
}

/// Writes the object of a running command, which reads back as the same
/// values.
pub fn write_running(t: i64, d: &str, c: &str) -> (r: Vec<u8>)
    ensures
        r@ == running_object(t, d@, c@),
        record(r@, Shape::Running) == Some(
            (ValuesView { t: Some(t), d: Some(d@), c: Some(c@), ..no_values() }),
        ),
{
    let ghost end: Seq<u8> = seq![125u8];
    let ghost from_c = more(Field::C, json_text(c@), end);
    let ghost from_d = more(Field::D, json_text(d@), from_c);
    let ghost object = running_object(t, d@, c@);
    let mut out: Vec<u8> = Vec::new();
    out.push(123);
    put_i64(&mut out, true, Field::T, t);
    assert(out@ + from_d =~= object);
    put_text(&mut out, false, Field::D, d);
    assert(out@ + from_c =~= object);
    put_text(&mut out, false, Field::C, c);
    assert(out@ + end =~= object);
    out.push(125);
    assert(out@ =~= object);
    proof {
        let shape = Shape::Running;
        lemma_keys_differ();
        assert(object.skip(1) =~= member(Field::T, json_i64(t)) + from_d);
        lemma_skip_none(object, 0);
        let v0 = no_values();
        let v1 = with_i64(v0, Field::T, t);
        let v2 = with_text(v1, Field::D, d@);
        let v3 = with_text(v2, Field::C, c@);
        lemma_member_read(object, 1, true, shape, Field::T, json_i64(t), from_d, v0, v1);
        let p1 = object.len() - from_d.len();
        lemma_member_read(object, p1, false, shape, Field::D, json_text(d@), from_c, v1, v2);
        let p2 = object.len() - from_c.len();
        lemma_member_read(object, p2, false, shape, Field::C, json_text(c@), end, v2, v3);
        let p3 = object.len() - end.len();
        assert(end =~= seq![125u8] + Seq::<u8>::empty());
        lemma_object_end(object, p3, shape, v3, Seq::empty());
    }
    out
}

/// A value is taken as it was read, for the field it belongs to and no other.
/// A field takes just one; what belongs to no field changes nothing.
pub proof fn law_a_value_goes_to_its_field(s: Seq<u8>, p: int, f: Field, v: ValuesView)
    ensures
        value_at(s, p, Some(f), v) is Some <==> !holds(v, f) && if f == Field::D || f == Field::C {
            json_text_at(s.skip(p)) is Some
        } else {
            json_i64_at(s.skip(p)) is Some
        },
        value_at(s, p, Some(f), v) matches Some((w, next)) ==> {
            let text = json_text_at(s.skip(p));
            let number = json_i64_at(s.skip(p));
            &&& f == Field::D ==> text == Some((w.d->0, next - p)) && w.d is Some
            &&& f == Field::C ==> text == Some((w.c->0, next - p)) && w.c is Some
            &&& f == Field::I ==> number == Some((w.i->0, next - p)) && w.i is Some
            &&& f == Field::T ==> number == Some((w.t->0, next - p)) && w.t is Some
            &&& f == Field::X ==> number == Some((w.x->0, next - p)) && w.x is Some
            &&& f == Field::M ==> number == Some((w.m->0, next - p)) && w.m is Some
            &&& f != Field::D ==> w.d == v.d
            &&& f != Field::C ==> w.c == v.c
            &&& f != Field::I ==> w.i == v.i
            &&& f != Field::T ==> w.t == v.t
            &&& f != Field::X ==> w.x == v.x
            &&& f != Field::M ==> w.m == v.m
        },
        value_at(s, p, None, v) == match json_value_at(s.skip(p)) {
            Some(n) => Some((v, p + n)),
            None => None,
        },
{
}

/// Whether `v` has values only for the fields of `shape`.
pub open spec fn keeps_to(v: ValuesView, shape: Shape) -> bool {
    &&& shape != Shape::Stored ==> v.i is None
    &&& shape == Shape::Running ==> v.x is None && v.m is None
}

proof fn lemma_members_keep_to(s: Seq<u8>, p: int, first: bool, shape: Shape, v: ValuesView)
    requires
        keeps_to(v, shape),
    ensures
        members(s, p, first, shape, v) matches Some((w, _)) ==> keeps_to(w, shape),
    decreases s.len() - p,
{
    reveal(members);
    let here = skip_space(s, p);
    let key = if first {
        here
    } else {
        skip_space(s, here + 1)
    };
    if let Some((w, next)) = member_at(s, key, shape, v) {
        if p < next <= s.len() {
            lemma_members_keep_to(s, next, false, shape, w);
        }
    }
}

proof fn lemma_elements_keep_to(s: Seq<u8>, p: int, k: int, shape: Shape, v: ValuesView)
    requires
        0 <= k,
        keeps_to(v, shape),
    ensures
        elements(s, p, k, shape, v) matches Some((w, _)) ==> keeps_to(w, shape),
    decreases s.len() - p,
{
    let here = skip_space(s, p);
    let element = if k == 0 {
        here
    } else {
        skip_space(s, here + 1)
    };
    if k < fields_of(shape).len() {
        if let Some((w, next)) = value_at(s, element, Some(fields_of(shape)[k]), v) {
            if p < next <= s.len() {
                lemma_elements_keep_to(s, next, k + 1, shape, w);
            }
        }
    }
}

/// A record has no fields but those of its kind: just a stored line has a
/// number, and a running command has neither a status nor a duration.
pub proof fn law_records_keep_to_their_kind(s: Seq<u8>, shape: Shape)
    ensures
        record(s, shape) matches Some(v) ==> {
            &&& shape != Shape::Stored ==> v.i is None
            &&& shape == Shape::Running ==> v.x is None && v.m is None
        },
{
    let p = skip_space(s, 0);
    lemma_members_keep_to(s, p + 1, true, shape, no_values());
    lemma_elements_keep_to(s, p + 1, 0, shape, no_values());
}

/// The object of an entry to import, with its duration or, where that is zero,
/// without.
pub open spec fn plain_object(t: i64, d: Seq<char>, x: i64, c: Seq<char>, m: i64) -> Seq<u8> {
    seq![123u8] + member(Field::T, json_i64(t)) + more(
        Field::D,
        json_text(d),
        more(
            Field::X,
            json_i64(x),
            more(
                Field::C,
                json_text(c),
                if m == 0 {
                    seq![125u8]
                } else {
                    more(Field::M, json_i64(m), seq![125u8])
                },
            ),
        ),
    )
}

/// Whether a text that JSON writes reads as itself, whatever follows it.
pub open spec fn text_reads_back(s: Seq<char>) -> bool {
    forall|rest: Seq<u8>| #[trigger]
        json_text_at(json_text(s) + rest) == Some((s, json_text(s).len() as int))
}

/// Whether a number that JSON writes reads as itself inside an object.
pub open spec fn number_reads_back(n: i64) -> bool {
    forall|rest: Seq<u8>|
        ends_number(rest) ==> #[trigger] json_i64_at(json_i64(n) + rest) == Some(
            (n, json_i64(n).len() as int),
        )
}

/// The object of an entry to import reads as just that entry's values, as far
/// as its texts and numbers read back.
pub proof fn law_plain_objects_read_back(t: i64, d: Seq<char>, x: i64, c: Seq<char>, m: i64)
    requires
        number_reads_back(t),
        number_reads_back(x),
        number_reads_back(m),
        text_reads_back(d),
        text_reads_back(c),
        text_reads_back(seq!['t']),
        text_reads_back(seq!['d']),
        text_reads_back(seq!['x']),
        text_reads_back(seq!['c']),
        text_reads_back(seq!['m']),
    ensures
        record(plain_object(t, d, x, c, m), Shape::Plain) matches Some(v) && v.i is None && v.t
            == Some(t) && v.d == Some(d) && v.x == Some(x) && v.c == Some(c) && v.m == if m == 0 {
            None
        } else {
            Some(m)
        },
{
    let shape = Shape::Plain;
    let s = plain_object(t, d, x, c, m);
    let end = seq![125u8];
    let from_m = if m == 0 {
        end
    } else {
        more(Field::M, json_i64(m), end)
    };
    let from_c = more(Field::C, json_text(c), from_m);
    let from_x = more(Field::X, json_i64(x), from_c);
    let from_d = more(Field::D, json_text(d), from_x);
    lemma_keys_differ();
    law_plain_text_is_quoted(seq!['t']);
    law_plain_text_is_quoted(seq!['d']);
    law_plain_text_is_quoted(seq!['x']);
    law_plain_text_is_quoted(seq!['c']);
    law_plain_text_is_quoted(seq!['m']);
    assert(reads_i64(json_i64(t), t) && reads_i64(json_i64(x), x) && reads_i64(json_i64(m), m));
    assert(reads_text(json_text(d), d) && reads_text(json_text(c), c));
    assert(s[0] == 123);
    lemma_skip_none(s, 0);
    assert(s.skip(1) =~= member(Field::T, json_i64(t)) + from_d);
    let v0 = no_values();
    let v1 = with_i64(v0, Field::T, t);
    let v2 = with_text(v1, Field::D, d);
    let v3 = with_i64(v2, Field::X, x);
    let v4 = with_text(v3, Field::C, c);
    lemma_member_read(s, 1, true, shape, Field::T, json_i64(t), from_d, v0, v1);
    let p1 = s.len() - from_d.len();
    lemma_member_read(s, p1, false, shape, Field::D, json_text(d), from_x, v1, v2);
    let p2 = s.len() - from_x.len();
    lemma_member_read(s, p2, false, shape, Field::X, json_i64(x), from_c, v2, v3);
    let p3 = s.len() - from_c.len();
    lemma_member_read(s, p3, false, shape, Field::C, json_text(c), from_m, v3, v4);
    let p4 = s.len() - from_m.len();
    assert(end =~= seq![125u8] + Seq::<u8>::empty());
    if m == 0 {
        lemma_object_end(s, p4, shape, v4, Seq::empty());
    } else {
        let v5 = with_i64(v4, Field::M, m);
        lemma_member_read(s, p4, false, shape, Field::M, json_i64(m), end, v4, v5);
        let p5 = s.len() - end.len();
        lemma_object_end(s, p5, shape, v5, Seq::empty());
    }
}

/// A field that has a value takes no second one.
pub proof fn law_fields_are_given_once(s: Seq<u8>, p: int, v: ValuesView)
    ensures
        v.i is Some ==> value_at(s, p, Some(Field::I), v) is None,
        v.t is Some ==> value_at(s, p, Some(Field::T), v) is None,
        v.d is Some ==> value_at(s, p, Some(Field::D), v) is None,
        v.x is Some ==> value_at(s, p, Some(Field::X), v) is None,
        v.c is Some ==> value_at(s, p, Some(Field::C), v) is None,
        v.m is Some ==> value_at(s, p, Some(Field::M), v) is None,
{
}

/// A key names a field just where it is the field's letter, and the kind of
/// record has that field.
pub proof fn law_keys_are_letters(shape: Shape, key: Seq<char>)
    ensures
        field_named(shape, key) == Some(Field::I) <==> key == seq!['i'] && shape == Shape::Stored,
        field_named(shape, key) == Some(Field::T) <==> key == seq!['t'],
        field_named(shape, key) == Some(Field::D) <==> key == seq!['d'],
        field_named(shape, key) == Some(Field::X) <==> key == seq!['x'] && shape != Shape::Running,
        field_named(shape, key) == Some(Field::C) <==> key == seq!['c'],
        field_named(shape, key) == Some(Field::M) <==> key == seq!['m'] && shape != Shape::Running,
{
    lemma_keys_differ();
}

proof fn lemma_members_end(s: Seq<u8>, p: int, first: bool, shape: Shape, v: ValuesView)
    requires
        0 <= p <= s.len(),
    ensures
        members(s, p, first, shape, v) matches Some((_, next)) ==> p < next <= s.len() && s[next
            - 1] == 125,
    decreases s.len() - p,
{
    reveal(members);
    lemma_skip_space(s, p);
    let here = skip_space(s, p);
    let key = if first {
        here
    } else {
        skip_space(s, here + 1)
    };
    if let Some((w, next)) = member_at(s, key, shape, v) {
        if p < next <= s.len() {
            lemma_members_end(s, next, false, shape, w);
        }
    }
}

proof fn lemma_elements_end(s: Seq<u8>, p: int, k: int, shape: Shape, v: ValuesView)
    requires
        0 <= p <= s.len(),
        0 <= k,
    ensures
        elements(s, p, k, shape, v) matches Some((_, next)) ==> p < next <= s.len() && s[next - 1]
            == 93,
    decreases s.len() - p,
{
    lemma_skip_space(s, p);
    let here = skip_space(s, p);
    let element = if k == 0 {
        here
    } else {
        skip_space(s, here + 1)
    };
    if k < fields_of(shape).len() {
        if let Some((w, next)) = value_at(s, element, Some(fields_of(shape)[k]), v) {
            if p < next <= s.len() {
                lemma_elements_end(s, next, k + 1, shape, w);
            }
        }
    }
}

/// A record is an object or an array with nothing around it but spaces, tabs,
/// line feeds and carriage returns: it starts with one of these or with an
/// opening bracket, and ends with one of these or with a closing one.
pub proof fn law_nothing_stands_around_a_record(s: Seq<u8>, shape: Shape)
    requires
        record(s, shape) is Some,
    ensures
        s.len() >= 2,
        s[0] == 32 || s[0] == 9 || s[0] == 10 || s[0] == 13 || s[0] == 123 || s[0] == 91,
        ({
            let z = s.last();
            z == 32 || z == 9 || z == 10 || z == 13 || z == 125 || z == 93
        }),
{
    let p = skip_space(s, 0);
    lemma_skip_space(s, 0);
    let (v, next) = if at(s, p, 123) {
        members(s, p + 1, true, shape, no_values())->0
    } else {
        elements(s, p + 1, 0, shape, no_values())->0
    };
    if at(s, p, 123) {
        lemma_members_end(s, p + 1, true, shape, no_values());
    } else {
        lemma_elements_end(s, p + 1, 0, shape, no_values());
    }
    lemma_space_to_the_end(s, next);
}

proof fn lemma_space_to_the_end(s: Seq<u8>, p: int)
    requires
        0 <= p <= s.len(),
        skip_space(s, p) == s.len(),
    ensures
        p < s.len() ==> is_json_space(s.last()),
    decreases s.len() - p,
{
    if p + 1 < s.len() {
        lemma_space_to_the_end(s, p + 1);
    }
}

} // verus!
