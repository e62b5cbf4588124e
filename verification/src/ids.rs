//! IDs of stored entries: the offset of the line and the entry's sequence
//! number, both in base 36, with a hyphen between them.

use vstd::prelude::*;
use crate::text::{
    chars_of, digit_char, digit_value, digits, lemma_digits_number, lemma_position, parse_i64,
    parsed_i64, position, split_at_first, split_once, string_of, to_digits,
};

verus! {

/// `n` in base 36; nothing where `n` is negative.
pub open spec fn base36(n: int) -> Seq<char> {
    if n < 0 {
        Seq::empty()
    } else {
        digits(n as nat, 36)
    }
}

/// The ID of the entry with sequence number `i` in the line at `offset`.
pub open spec fn id_text(offset: int, i: int) -> Seq<char> {
    base36(offset) + seq!['-'] + base36(i)
}

/// The offset and the sequence number that an ID names; None for anything
/// that is no ID.
pub open spec fn id_parts(id: Seq<char>) -> Option<(int, int)> {
    match split_at_first(id, '-') {
        Some((a, b)) => match (parsed_i64(a, 36), parsed_i64(b, 36)) {
            (Some(offset), Some(i)) => if offset >= 0 && i >= 0 {
                Some((offset, i))
            } else {
                None
            },
            _ => None,
        },
        None => None,
    }
}

fn radix36(n: i64) -> (r: Vec<char>)
    ensures
        r@ == base36(n as int),
{
    if n < 0 {
        Vec::new()
    } else {
        to_digits(n as u64, 36)
    }
}

/// The ID of the entry with sequence number `i` in the line at `offset`.
pub fn make_id(offset: u64, i: i64) -> (r: String)
    ensures
        r@ == id_text(offset as int, i as int),
{
    let mut id: Vec<char> = to_digits(offset, 36);
    id.push('-');
    let mut seq: Vec<char> = radix36(i);
    id.append(&mut seq);
    assert(id@ =~= id_text(offset as int, i as int));
    string_of(id.as_slice())
}

/// The offset and the sequence number that an ID names; None for malformed
/// IDs.
pub fn parse_id(id: &str) -> (r: Option<(i64, i64)>)
    ensures
        match r {
            Some((offset, i)) => id_parts(id@) == Some((offset as int, i as int)),
            None => id_parts(id@) is None,
        },
{
    let chars: Vec<char> = chars_of(id);
    match split_once(chars.as_slice(), '-') {
        Some((a, b)) => match (parse_i64(a, 36), parse_i64(b, 36)) {
            (Some(offset), Some(i)) => if offset >= 0 && i >= 0 {
                Some((offset, i))
            } else {
                None
            },
            _ => None,
        },
        None => None,
    }
}

/// No hyphen is in a number in base 36.
proof fn lemma_base36_no_hyphen(n: int)
    requires
        n >= 0,
    ensures
        forall|j: int| 0 <= j < base36(n).len() ==> base36(n)[j] != '-',
        base36(n).len() > 0,
{
    lemma_digits_number(n as nat, 36);
    assert forall|j: int| 0 <= j < base36(n).len() implies base36(n)[j] != '-' by {
        assert(digit_value(base36(n)[j]) is Some);
    }
}

/// An ID names the offset and the sequence number that it was made from.
pub proof fn law_id_names_its_parts(offset: u64, i: i64)
    requires
        offset <= i64::MAX,
        i >= 0,
    ensures
        id_parts(id_text(offset as int, i as int)) == Some((offset as int, i as int)),
{
    let a = base36(offset as int);
    let b = base36(i as int);
    let id = id_text(offset as int, i as int);
    lemma_base36_no_hyphen(offset as int);
    lemma_position(id, '-');
    let p = position(id, '-');
    assert(id[a.len() as int] == '-');
    if p < a.len() {
        assert(id[p] == a[p]);
    }
    assert(p == a.len());
    assert(id.take(p) =~= a);
    assert(id.skip(p + 1) =~= b);
    lemma_digits_number(offset as nat, 36);
    lemma_digits_number(i as nat, 36);
}

/// Two entries with different sequence numbers have different IDs, wherever
/// their lines are.
pub proof fn law_ids_tell_entries_apart(offset1: u64, i1: i64, offset2: u64, i2: i64)
    requires
        offset1 <= i64::MAX,
        i1 >= 0,
        offset2 <= i64::MAX,
        i2 >= 0,
        (offset1, i1) != (offset2, i2),
    ensures
        id_text(offset1 as int, i1 as int) != id_text(offset2 as int, i2 as int),
{
    law_id_names_its_parts(offset1, i1);
    law_id_names_its_parts(offset2, i2);
}

/// An ID is made of digits, lower-case letters and one hyphen: no space, no
/// control character and no sign of a running command is in it.
pub proof fn law_id_characters(offset: u64, i: i64)
    ensures
        forall|j: int|
            #![trigger id_text(offset as int, i as int)[j]]
            0 <= j < id_text(offset as int, i as int).len() ==> ({
                let c = id_text(offset as int, i as int)[j];
                c == '-' || '0' <= c <= '9' || 'a' <= c <= 'z'
            }),
{
    let a = base36(offset as int);
    let b = base36(i as int);
    let id = id_text(offset as int, i as int);
    lemma_digit_characters(offset as nat);
    if i >= 0 {
        lemma_digit_characters(i as nat);
    }
    assert forall|j: int| #![trigger id[j]] 0 <= j < id.len() implies ({
        let c = id[j];
        c == '-' || '0' <= c <= '9' || 'a' <= c <= 'z'
    }) by {
        if j < a.len() {
            assert(id[j] == a[j]);
        } else if j > a.len() {
            assert(id[j] == b[j - a.len() - 1]);
        }
    }
}

proof fn lemma_digit_characters(n: nat)
    ensures
        forall|j: int|
            #![trigger digits(n, 36)[j]]
            0 <= j < digits(n, 36).len() ==> ('0' <= digits(n, 36)[j] <= '9' || 'a' <= digits(
                n,
                36,
            )[j] <= 'z'),
    decreases n,
{
    if n >= 36 {
        lemma_digit_characters(n / 36);
        let p = digits(n / 36, 36);
        assert forall|j: int| #![trigger digits(n, 36)[j]] 0 <= j < digits(n, 36).len() implies (
        '0' <= digits(n, 36)[j] <= '9' || 'a' <= digits(n, 36)[j] <= 'z') by {
            if j < p.len() {
                assert(digits(n, 36)[j] == p[j]);
            } else {
                assert(digits(n, 36)[j] == digit_char((n % 36) as int));
            }
        }
    }
}

} // verus!
