//! Minimal flag parsing, and the two ways a command dies: a usage error
//! (exit 2) or a store error (exit 1).

use vstd::prelude::*;
use vstd::slice::slice_subrange;
use crate::entry::StoreError;
use crate::text::{
    chars_of, law_split_undoes_joining, lemma_position, parse_i64, parsed_i64, position, same_chars,
    split_at_first, split_once, string_of,
};

verus! {

/// The views of a list of texts.
pub open spec fn texts(s: Seq<String>) -> Seq<Seq<char>> {
    s.map_values(|t: String| t@)
}

/// The views of a list of names.
pub open spec fn names(s: Seq<&str>) -> Seq<Seq<char>> {
    s.map_values(|t: &str| t@)
}

/// The flags that pairs of a name and a value set, one after the other.
pub open spec fn settings(pairs: Seq<(String, String)>) -> Map<Seq<char>, Seq<char>>
    decreases pairs.len(),
{
    if pairs.len() == 0 {
        Map::empty()
    } else {
        settings(pairs.drop_last()).insert(pairs.last().0@, pairs.last().1@)
    }
}

/// The flags of a command line, and what stands there besides.
pub struct Flags {
    pub values: Vec<(String, String)>,
    pub positionals: Vec<String>,
}

impl Flags {
    /// The value of each flag that is set.
    pub open spec fn set(&self) -> Map<Seq<char>, Seq<char>> {
        settings(self.values@)
    }

    /// The value of a flag.
    pub fn get(&self, name: &str) -> (r: Option<&String>)
        ensures
            match r {
                Some(v) => self.set().contains_key(name@) && v@ == self.set()[name@],
                None => !self.set().contains_key(name@),
            },
    {
        let wanted: Vec<char> = chars_of(name);
        let mut n: usize = self.values.len();
        assert(self.values@.take(n as int) =~= self.values@);
        while n > 0
            invariant
                n <= self.values@.len(),
                wanted@ == name@,
                self.set().contains_key(name@) == settings(
                    self.values@.take(n as int),
                ).contains_key(name@),
                self.set().contains_key(name@) ==> self.set()[name@] == settings(
                    self.values@.take(n as int),
                )[name@],
            decreases n,
        {
            let ghost some = self.values@.take(n as int);
            assert(some.drop_last() =~= self.values@.take(n - 1));
            assert(some.last() == self.values@[n - 1]);
            let held: Vec<char> = chars_of(self.values[n - 1].0.as_str());
            if same_chars(held.as_slice(), wanted.as_slice()) {
                return Some(&self.values[n - 1].1);
            }
            n = n - 1;
        }
        None
    }

    /// Whether a flag is set.
    pub fn has(&self, name: &str) -> (r: bool)
        ensures
            r == self.set().contains_key(name@),
    {
        self.get(name).is_some()
    }
}

/// What stands behind the dashes of a flag; None for an argument that is no
/// flag, such as a dash or two alone.
pub open spec fn undashed(arg: Seq<char>) -> Option<Seq<char>> {
    if arg.len() >= 2 && arg[0] == '-' && arg[1] == '-' {
        if arg.len() > 2 {
            Some(arg.skip(2))
        } else {
            None
        }
    } else if arg.len() > 1 && arg[0] == '-' {
        Some(arg.skip(1))
    } else {
        None
    }
}

fn strip_dashes<'a>(arg: &'a [char]) -> (r: Option<&'a [char]>)
    ensures
        match r {
            Some(rest) => undashed(arg@) == Some(rest@),
            None => undashed(arg@) is None,
        },
{
    if arg.len() >= 2 && arg[0] == '-' && arg[1] == '-' {
        if arg.len() > 2 {
            let rest: &[char] = slice_subrange(arg, 2, arg.len());
            assert(rest@ =~= arg@.skip(2));
            return Some(rest);
        }
        return None;
    }
    if arg.len() > 1 && arg[0] == '-' {
        let rest: &[char] = slice_subrange(arg, 1, arg.len());
        assert(rest@ =~= arg@.skip(1));
        return Some(rest);
    }
    None
}

/// The name and the value of a flag given as `name=value`, or the name alone.
pub open spec fn name_and_value(rest: Seq<char>) -> (Seq<char>, Option<Seq<char>>) {
    match split_at_first(rest, '=') {
        Some((name, value)) => (name, Some(value)),
        None => (rest, None),
    }
}

/// What a flag that takes no value is set to by `-name=value`: a value, or
/// nothing where it is to be unset.
pub open spec fn switched(value: Option<Seq<char>>) -> Option<Option<Seq<char>>> {
    match value {
        None => Some(Some("true"@)),
        Some(v) => if v == "true"@ {
            Some(Some(v))
        } else if v == "false"@ {
            Some(None)
        } else {
            None
        },
    }
}

/// What is said of a bool flag that is set to neither of the two.
pub open spec fn bad_switch(value: Seq<char>, name: Seq<char>) -> Seq<char> {
    "invalid boolean value \""@ + value + "\" for -"@ + name
}

/// What is said of a flag whose value is missing.
pub open spec fn needs_argument(name: Seq<char>) -> Seq<char> {
    "flag needs an argument: -"@ + name
}

/// What is said of a flag that the command does not know.
pub open spec fn not_defined(name: Seq<char>) -> Seq<char> {
    "flag provided but not defined: -"@ + name
}

/// The flags set and the positionals after the arguments from `i` on, or the
/// message that refuses one of them.
pub open spec fn walked(
    args: Seq<Seq<char>>,
    i: int,
    bools: Seq<Seq<char>>,
    set: Map<Seq<char>, Seq<char>>,
    positionals: Seq<Seq<char>>,
) -> Result<(Map<Seq<char>, Seq<char>>, Seq<Seq<char>>), Seq<char>>
    decreases args.len() - i,
{
    if !(0 <= i < args.len()) {
        Ok((set, positionals))
    } else {
        match undashed(args[i]) {
            None => walked(args, i + 1, bools, set, positionals.push(args[i])),
            Some(rest) => {
                let (name, value) = name_and_value(rest);
                if bools.contains(name) {
                    match switched(value) {
                        Some(Some(v)) => walked(
                            args,
                            i + 1,
                            bools,
                            set.insert(name, v),
                            positionals,
                        ),
                        Some(None) => walked(args, i + 1, bools, set.remove(name), positionals),
                        None => Err(bad_switch(value->0, name)),
                    }
                } else {
                    match value {
                        Some(v) => walked(args, i + 1, bools, set.insert(name, v), positionals),
                        None => if i + 1 < args.len() {
                            walked(
                                args,
                                i + 2,
                                bools,
                                set.insert(name, args[i + 1]),
                                positionals,
                            )
                        } else {
                            Err(needs_argument(name))
                        },
                    }
                }
            },
        }
    }
}

/// Whether every flag that is set is one of these.
pub open spec fn all_defined(
    set: Map<Seq<char>, Seq<char>>,
    known: Seq<Seq<char>>,
    bools: Seq<Seq<char>>,
) -> bool {
    forall|name: Seq<char>| #[trigger]
        set.contains_key(name) ==> known.contains(name) || bools.contains(name)
}

fn listed(list: &[&str], name: &[char]) -> (r: bool)
    ensures
        r == names(list@).contains(name@),
{
    let mut k: usize = 0;
    while k < list.len()
        invariant
            k <= list@.len(),
            forall|j: int| 0 <= j < k ==> (#[trigger] list@[j])@ != name@,
        decreases list@.len() - k,
    {
        let held: Vec<char> = chars_of(list[k]);
        if same_chars(held.as_slice(), name) {
            assert(names(list@)[k as int] == name@);
            return true;
        }
        k = k + 1;
    }
    proof {
        if names(list@).contains(name@) {
            let j = names(list@).index_of(name@);
            assert(list@[j]@ == name@);
        }
    }
    false
}

fn is_text(s: &[char], t: &str) -> (r: bool)
    ensures
        r == (s@ == t@),
{
    let chars: Vec<char> = chars_of(t);
    same_chars(s, chars.as_slice())
}

fn set_flag(pairs: &mut Vec<(String, String)>, name: &[char], value: &[char])
    ensures
        settings(final(pairs)@) == settings(old(pairs)@).insert(name@, value@),
{
    let ghost before = pairs@;
    pairs.push((string_of(name), string_of(value)));
    assert(pairs@.drop_last() =~= before);
}

fn unset_flag(pairs: Vec<(String, String)>, name: &[char]) -> (r: Vec<(String, String)>)
    ensures
        settings(r@) == settings(pairs@).remove(name@),
{
    let ghost all = pairs@;
    let mut kept: Vec<(String, String)> = Vec::new();
    assert(all.take(0) =~= Seq::<(String, String)>::empty());
    assert(settings(kept@) =~= settings(all.take(0)).remove(name@));
    for pair in it: pairs.into_iter()
        invariant
            it.seq() == all,
            settings(kept@) == settings(all.take(it.index() as int)).remove(name@),
    {
        let ghost n = it.index() as int;
        let ghost sofar = kept@;
        assert(all.take(n + 1).drop_last() =~= all.take(n));
        assert(all.take(n + 1).last() == pair);
        let held: Vec<char> = chars_of(pair.0.as_str());
        if !same_chars(held.as_slice(), name) {
            kept.push(pair);
            assert(kept@.drop_last() =~= sofar);
        }
        assert(settings(kept@) =~= settings(all.take(n + 1)).remove(name@));
    }
    assert(all.take(all.len() as int) =~= all);
    kept
}

proof fn lemma_settings(pairs: Seq<(String, String)>)
    ensures
        forall|k: int|
            0 <= k < pairs.len() ==> settings(pairs).contains_key((#[trigger] pairs[k]).0@),
        forall|name: Seq<char>| #[trigger]
            settings(pairs).contains_key(name) ==> exists|k: int|
                0 <= k < pairs.len() && (#[trigger] pairs[k]).0@ == name,
    decreases pairs.len(),
{
    if pairs.len() > 0 {
        let less = pairs.drop_last();
        lemma_settings(less);
        assert forall|k: int| 0 <= k < pairs.len() implies settings(pairs).contains_key(
            (#[trigger] pairs[k]).0@,
        ) by {
            if k < less.len() {
                assert(less[k] == pairs[k]);
            }
        }
        assert forall|name: Seq<char>| #[trigger] settings(pairs).contains_key(name) implies exists|
            k: int,
        |
            0 <= k < pairs.len() && (#[trigger] pairs[k]).0@ == name by {
            if name == pairs.last().0@ {
                assert(pairs[pairs.len() - 1].0@ == name);
            } else {
                assert(settings(less).contains_key(name));
                let k = choose|k: int| 0 <= k < less.len() && (#[trigger] less[k]).0@ == name;
                assert(pairs[k].0@ == name);
            }
        }
    }
}

fn message(head: &str, name: &[char]) -> (r: String)
    ensures
        r@ == head@ + name@,
{
    let mut out: String = head.to_owned();
    let tail: String = string_of(name);
    out.append(tail.as_str());
    out
}

fn bad_switch_message(value: &[char], name: &[char]) -> (r: String)
    ensures
        r@ == bad_switch(value@, name@),
{
    let mut out: String = message("invalid boolean value \"", value);
    let tail: String = message("\" for -", name);
    out.append(tail.as_str());
    assert(out@ =~= bad_switch(value@, name@));
    out
}

/// What `parse_flags` gives: the flags, or the message that refuses an
/// argument. Of several flags that are not defined any one may be named.
pub open spec fn flags_or_message(
    args: Seq<Seq<char>>,
    known: Seq<Seq<char>>,
    bools: Seq<Seq<char>>,
    r: Result<Flags, String>,
) -> bool {
    match walked(args, 0, bools, Map::empty(), Seq::empty()) {
        Err(m) => r matches Err(s) && s@ == m,
        Ok((set, positionals)) => if all_defined(set, known, bools) {
            r matches Ok(f) && f.set() == set && texts(f.positionals@) == positionals
        } else {
            r matches Err(s) && exists|name: Seq<char>| #[trigger]
                set.contains_key(name) && !known.contains(name) && !bools.contains(name) && s@
                    == not_defined(name)
        },
    }
}

/// Parses `-name value`, `-name=value`, and `--name` forms. Bool flags
/// (`bools`) never consume the next argument. Unknown flags are rejected.
pub fn parse_flags(args: &[String], known: &[&str], bools: &[&str]) -> (r: Result<Flags, String>)
    ensures
        flags_or_message(texts(args@), names(known@), names(bools@), r),
{
    let ghost all = texts(args@);
    let ghost switches = names(bools@);
    let mut values: Vec<(String, String)> = Vec::new();
    let mut positionals: Vec<String> = Vec::new();
    let mut i: usize = 0;
    assert(texts(positionals@) =~= Seq::<Seq<char>>::empty());
    while i < args.len()
        invariant
            i <= args@.len(),
            all == texts(args@),
            switches == names(bools@),
            walked(all, 0, switches, Map::empty(), Seq::empty()) == walked(
                all,
                i as int,
                switches,
                settings(values@),
                texts(positionals@),
            ),
        decreases args@.len() - i,
    {
        let arg: Vec<char> = chars_of(args[i].as_str());
        assert(all[i as int] == arg@);
        match strip_dashes(arg.as_slice()) {
            None => {
                let ghost before = texts(positionals@);
                positionals.push(args[i].clone());
                assert(texts(positionals@) =~= before.push(arg@));
                i = i + 1;
            },
            Some(rest) => {
                let (name, inline): (&[char], Option<&[char]>) = match split_once(rest, '=') {
                    Some((n, v)) => (n, Some(v)),
                    None => (rest, None),
                };
                if listed(bools, name) {
                    match inline {
                        None => {
                            let on: Vec<char> = chars_of("true");
                            set_flag(&mut values, name, on.as_slice());
                        },
                        Some(v) => {
                            if is_text(v, "true") {
                                set_flag(&mut values, name, v);
                            } else if is_text(v, "false") {
                                values = unset_flag(values, name);
                            } else {
                                return Err(bad_switch_message(v, name));
                            }
                        },
                    }
                    i = i + 1;
                } else {
                    match inline {
                        Some(v) => {
                            set_flag(&mut values, name, v);
                            i = i + 1;
                        },
                        None => {
                            if i + 1 < args.len() {
                                let value: Vec<char> = chars_of(args[i + 1].as_str());
                                assert(all[i + 1] == value@);
                                set_flag(&mut values, name, value.as_slice());
                                i = i + 2;
                            } else {
                                return Err(message("flag needs an argument: -", name));
                            }
                        },
                    }
                }
            },
        }
    }
    proof {
        lemma_settings(values@);
    }
    let mut k: usize = 0;
    while k < values.len()
        invariant
            k <= values@.len(),
            walked(texts(args@), 0, names(bools@), Map::empty(), Seq::empty()) == Ok::<
                (Map<Seq<char>, Seq<char>>, Seq<Seq<char>>),
                Seq<char>,
            >((settings(values@), texts(positionals@))),
            forall|j: int|
                0 <= j < values@.len() ==> settings(values@).contains_key(
                    (#[trigger] values@[j]).0@,
                ),
            forall|j: int|
                0 <= j < k ==> names(known@).contains((#[trigger] values@[j]).0@) || names(
                    bools@,
                ).contains(values@[j].0@),
        decreases values@.len() - k,
    {
        let name: Vec<char> = chars_of(values[k].0.as_str());
        if !listed(known, name.as_slice()) && !listed(bools, name.as_slice()) {
            assert(settings(values@).contains_key(values@[k as int].0@));
            return Err(message("flag provided but not defined: -", name.as_slice()));
        }
        k = k + 1;
    }
    assert(all_defined(settings(values@), names(known@), names(bools@))) by {
        assert forall|name: Seq<char>| #[trigger] settings(values@).contains_key(name) implies names(
            known@,
        ).contains(name) || names(bools@).contains(name) by {
            let j = choose|j: int| 0 <= j < values@.len() && (#[trigger] values@[j]).0@ == name;
            assert(values@[j].0@ == name);
        }
    }
    Ok(Flags { values, positionals })
}

/// How a command ends early: its exit code and what it prints to standard
/// error.
pub struct Exit {
    pub code: i32,
    pub message: String,
}

/// A store error ends a command with exit code 1; `detail` says what is wrong
/// with a line that holds no entry.
pub fn die_err(e: &StoreError, path: &str, detail: &str) -> (r: Exit)
    ensures
        r.code == 1,
        r.message@ == "zhis: "@ + e.text(path@, detail@),
{
    let mut message: String = "zhis: ".to_owned();
    let text: String = e.message(path, detail);
    message.append(text.as_str());
    Exit { code: 1, message }
}

/// A usage error ends a command with exit code 2.
pub fn die_usage(msg: &str) -> (r: Exit)
    ensures
        r.code == 2,
        r.message@ == msg@,
{
    Exit { code: 2, message: msg.to_owned() }
}

/// What is said of a flag that is set to no integer.
pub open spec fn not_a_number(value: Seq<char>, name: Seq<char>) -> Seq<char> {
    "invalid value \""@ + value + "\" for flag -"@ + name + ": parse error"@
}

fn parse_int(name: &str, v: &str) -> (r: Result<i64, Exit>)
    ensures
        match parsed_i64(v@, 10) {
            Some(n) => r matches Ok(got) && got == n,
            None => r matches Err(e) && e.code == 2 && e.message@ == not_a_number(v@, name@),
        },
{
    let chars: Vec<char> = chars_of(v);
    match parse_i64(chars.as_slice(), 10) {
        Some(n) => Ok(n),
        None => {
            let mut message: String = "invalid value \"".to_owned();
            message.append(v);
            message.append("\" for flag -");
            message.append(name);
            message.append(": parse error");
            assert(message@ =~= not_a_number(v@, name@));
            Err(Exit { code: 2, message })
        },
    }
}

/// The flags of a command line, or its end with a usage error.
pub fn flags_or_die(args: &[String], known: &[&str], bools: &[&str]) -> (r: Result<Flags, Exit>)
    ensures
        match r {
            Ok(flags) => flags_or_message(
                texts(args@),
                names(known@),
                names(bools@),
                Ok::<Flags, String>(flags),
            ),
            Err(e) => e.code == 2 && exists|m: String| #[trigger]
                flags_or_message(
                    texts(args@),
                    names(known@),
                    names(bools@),
                    Err::<Flags, String>(m),
                ) && m@ == e.message@,
        },
{
    match parse_flags(args, known, bools) {
        Ok(flags) => Ok(flags),
        Err(m) => Err(die_usage(m.as_str())),
    }
}

/// The integer that a flag is set to, `default` where it is not set.
pub fn int_flag(flags: &Flags, name: &str, default: i64) -> (r: Result<i64, Exit>)
    ensures
        if flags.set().contains_key(name@) {
            match parsed_i64(flags.set()[name@], 10) {
                Some(n) => r matches Ok(got) && got == n,
                None => r matches Err(e) && e.code == 2 && e.message@ == not_a_number(
                    flags.set()[name@],
                    name@,
                ),
            }
        } else {
            r matches Ok(got) && got == default
        },
{
    match flags.get(name) {
        Some(v) => parse_int(name, v.as_str()),
        None => Ok(default),
    }
}

/// The text that a flag is set to, empty where it is not set.
pub open spec fn text_or_empty(flags: Flags, name: Seq<char>) -> Seq<char> {
    if flags.set().contains_key(name) {
        flags.set()[name]
    } else {
        Seq::empty()
    }
}

/// The text that a flag is set to, empty where it is not set.
pub fn text_flag(flags: &Flags, name: &str) -> (r: String)
    ensures
        r@ == text_or_empty(*flags, name@),
{
    match flags.get(name) {
        Some(v) => v.clone(),
        None => String::new(),
    }
}

/// A flag may have one dash or two.
pub proof fn law_two_dashes_are_one(flag: Seq<char>)
    requires
        flag.len() > 0,
        flag[0] != '-',
    ensures
        undashed(seq!['-'] + flag) == Some(flag),
        undashed(seq!['-', '-'] + flag) == Some(flag),
{
    assert((seq!['-'] + flag).skip(1) =~= flag);
    assert((seq!['-', '-'] + flag).skip(2) =~= flag);
}

/// What is made of the arguments from `i` on depends on nothing before them.
proof fn lemma_walk_rest(
    args: Seq<Seq<char>>,
    i: int,
    k: int,
    bools: Seq<Seq<char>>,
    set: Map<Seq<char>, Seq<char>>,
    positionals: Seq<Seq<char>>,
)
    requires
        0 <= i <= args.len(),
        0 <= k <= args.len() - i,
    ensures
        walked(args.skip(i), k, bools, set, positionals) == walked(
            args,
            i + k,
            bools,
            set,
            positionals,
        ),
    decreases args.len() - i - k,
{
    let rest = args.skip(i);
    if k < rest.len() {
        assert(rest[k] == args[i + k]);
        match undashed(args[i + k]) {
            None => {
                lemma_walk_rest(args, i, k + 1, bools, set, positionals.push(args[i + k]));
            },
            Some(flag) => {
                let (name, value) = name_and_value(flag);
                if bools.contains(name) {
                    match switched(value) {
                        Some(Some(v)) => {
                            lemma_walk_rest(args, i, k + 1, bools, set.insert(name, v), positionals);
                        },
                        Some(None) => {
                            lemma_walk_rest(args, i, k + 1, bools, set.remove(name), positionals);
                        },
                        None => {},
                    }
                } else {
                    match value {
                        Some(v) => {
                            lemma_walk_rest(args, i, k + 1, bools, set.insert(name, v), positionals);
                        },
                        None => {
                            if k + 1 < rest.len() {
                                assert(rest[k + 1] == args[i + k + 1]);
                                lemma_walk_rest(
                                    args,
                                    i,
                                    k + 2,
                                    bools,
                                    set.insert(name, args[i + k + 1]),
                                    positionals,
                                );
                            }
                        },
                    }
                }
            },
        }
    }
}

/// `-name value` and `-name=value` say the same of a flag that takes a value.
pub proof fn law_value_inline_or_next(
    name: Seq<char>,
    value: Seq<char>,
    rest: Seq<Seq<char>>,
    bools: Seq<Seq<char>>,
    set: Map<Seq<char>, Seq<char>>,
    positionals: Seq<Seq<char>>,
)
    requires
        name.len() > 0,
        name[0] != '-',
        !name.contains('='),
        !bools.contains(name),
    ensures
        walked(
            seq![seq!['-'] + name, value] + rest,
            0,
            bools,
            set,
            positionals,
        ) == walked(
            seq![seq!['-'] + name + seq!['='] + value] + rest,
            0,
            bools,
            set,
            positionals,
        ),
{
    let two = seq![seq!['-'] + name, value] + rest;
    let one = seq![seq!['-'] + name + seq!['='] + value] + rest;
    let flag = name + seq!['='] + value;
    assert(seq!['-'] + name + seq!['='] + value =~= seq!['-'] + flag);
    law_two_dashes_are_one(name);
    law_two_dashes_are_one(flag);
    lemma_position(name, '=');
    lemma_position(flag, '=');
    let p = position(flag, '=');
    assert(flag[name.len() as int] == '=');
    if p < name.len() {
        assert(name[p] == '=');
    }
    if position(name, '=') < name.len() {
        assert(name.contains(name[position(name, '=')]));
    }
    assert(p == name.len());
    assert(flag.take(p) =~= name);
    assert(flag.skip(p + 1) =~= value);
    assert(two[0] == seq!['-'] + name && two[1] == value);
    assert(one[0] == seq!['-'] + flag);
    lemma_walk_rest(two, 2, 0, bools, set.insert(name, value), positionals);
    lemma_walk_rest(one, 1, 0, bools, set.insert(name, value), positionals);
    assert(two.skip(2) =~= rest);
    assert(one.skip(1) =~= rest);
}

/// A flag that takes a value is set to the next argument, whatever that is,
/// and the arguments behind it are read on. It is refused where there is none.
pub proof fn law_flags_are_set_to_their_values(
    name: Seq<char>,
    value: Seq<char>,
    rest: Seq<Seq<char>>,
    bools: Seq<Seq<char>>,
    set: Map<Seq<char>, Seq<char>>,
    positionals: Seq<Seq<char>>,
)
    requires
        name.len() > 0,
        name[0] != '-',
        !name.contains('='),
        !bools.contains(name),
    ensures
        walked(seq![seq!['-'] + name, value] + rest, 0, bools, set, positionals) == walked(
            rest,
            0,
            bools,
            set.insert(name, value),
            positionals,
        ),
        walked(seq![seq!['-'] + name], 0, bools, set, positionals) == Err::<
            (Map<Seq<char>, Seq<char>>, Seq<Seq<char>>),
            Seq<char>,
        >("flag needs an argument: -"@ + name),
{
    let two = seq![seq!['-'] + name, value] + rest;
    law_two_dashes_are_one(name);
    lemma_position(name, '=');
    if position(name, '=') < name.len() {
        assert(name.contains(name[position(name, '=')]));
    }
    assert(two[0] == seq!['-'] + name && two[1] == value);
    lemma_walk_rest(two, 2, 0, bools, set.insert(name, value), positionals);
    assert(two.skip(2) =~= rest);
    assert(seq![seq!['-'] + name][0] == seq!['-'] + name);
}

/// A flag that takes no value is set by its name alone or by `=true`, and
/// unset by `=false`; either way the next argument is not its own. Any other
/// value is refused.
pub proof fn law_switches_take_no_argument(
    name: Seq<char>,
    value: Seq<char>,
    rest: Seq<Seq<char>>,
    bools: Seq<Seq<char>>,
    set: Map<Seq<char>, Seq<char>>,
    positionals: Seq<Seq<char>>,
)
    requires
        name.len() > 0,
        name[0] != '-',
        !name.contains('='),
        bools.contains(name),
    ensures
        walked(seq![seq!['-'] + name] + rest, 0, bools, set, positionals) == walked(
            rest,
            0,
            bools,
            set.insert(name, "true"@),
            positionals,
        ),
        ({
            let given = seq![seq!['-'] + (name.push('=') + value)] + rest;
            walked(given, 0, bools, set, positionals) == if value == "true"@ {
                walked(rest, 0, bools, set.insert(name, "true"@), positionals)
            } else if value == "false"@ {
                walked(rest, 0, bools, set.remove(name), positionals)
            } else {
                Err("invalid boolean value \""@ + value + "\" for -"@ + name)
            }
        }),
{
    let alone = seq![seq!['-'] + name] + rest;
    let flag = name.push('=') + value;
    let given = seq![seq!['-'] + flag] + rest;
    law_two_dashes_are_one(name);
    law_two_dashes_are_one(flag);
    lemma_position(name, '=');
    if position(name, '=') < name.len() {
        assert(name.contains(name[position(name, '=')]));
    }
    assert forall|j: int| 0 <= j < name.len() implies #[trigger] name[j] != '=' by {
        assert(name.contains(name[j]));
    }
    law_split_undoes_joining(name, '=', value);
    assert(alone[0] == seq!['-'] + name);
    assert(given[0] == seq!['-'] + flag);
    assert(alone.skip(1) =~= rest);
    assert(given.skip(1) =~= rest);
    lemma_walk_rest(alone, 1, 0, bools, set.insert(name, "true"@), positionals);
    lemma_walk_rest(given, 1, 0, bools, set.insert(name, "true"@), positionals);
    lemma_walk_rest(given, 1, 0, bools, set.remove(name), positionals);
    reveal_strlit("true");
    reveal_strlit("false");
    assert("true"@.len() != "false"@.len());
}

/// What starts with no dash, or is nothing but one or two, is a positional,
/// kept as it is and in its place.
pub proof fn law_positionals_are_kept(
    arg: Seq<char>,
    rest: Seq<Seq<char>>,
    bools: Seq<Seq<char>>,
    set: Map<Seq<char>, Seq<char>>,
    positionals: Seq<Seq<char>>,
)
    requires
        arg.len() == 0 || arg[0] != '-' || arg == seq!['-'] || arg == seq!['-', '-'],
    ensures
        walked(seq![arg] + rest, 0, bools, set, positionals) == walked(
            rest,
            0,
            bools,
            set,
            positionals.push(arg),
        ),
        walked(Seq::empty(), 0, bools, set, positionals) == Ok::<
            (Map<Seq<char>, Seq<char>>, Seq<Seq<char>>),
            Seq<char>,
        >((set, positionals)),
{
    let args = seq![arg] + rest;
    assert(args[0] == arg);
    assert(args.skip(1) =~= rest);
    lemma_walk_rest(args, 1, 0, bools, set, positionals.push(arg));
}

/// A command line is taken just where it can be read and every flag it sets is
/// known; a message on an unknown flag names one that was set.
pub proof fn law_unknown_flags_are_refused(
    args: Seq<Seq<char>>,
    known: Seq<Seq<char>>,
    bools: Seq<Seq<char>>,
    r: Result<Flags, String>,
)
    requires
        flags_or_message(args, known, bools, r),
    ensures
        match walked(args, 0, bools, Map::empty(), Seq::empty()) {
            Err(m) => r is Err && r->Err_0@ == m,
            Ok((set, positionals)) => {
                &&& r is Ok <==> forall|name: Seq<char>| #[trigger]
                    set.contains_key(name) ==> known.contains(name) || bools.contains(name)
                &&& r is Ok ==> texts(r->Ok_0.positionals@) == positionals
                &&& r is Ok ==> forall|name: Seq<char>|
                    #![trigger set.contains_key(name)]
                    r->Ok_0.set().contains_key(name) == set.contains_key(name) && (
                    set.contains_key(name) ==> r->Ok_0.set()[name] == set[name])
                &&& r is Err ==> exists|name: Seq<char>| #[trigger]
                    set.contains_key(name) && !known.contains(name) && !bools.contains(name)
                        && r->Err_0@ == "flag provided but not defined: -"@ + name
            },
        },
{
}

/// A flag that is set again has the later value, and no other flag changes.
pub proof fn law_last_setting_wins(
    pairs: Seq<(String, String)>,
    pair: (String, String),
    name: Seq<char>,
)
    ensures
        settings(pairs.push(pair)).contains_key(pair.0@),
        settings(pairs.push(pair))[pair.0@] == pair.1@,
        name != pair.0@ ==> settings(pairs.push(pair)).contains_key(name) == settings(
            pairs,
        ).contains_key(name),
        name != pair.0@ && settings(pairs).contains_key(name) ==> settings(pairs.push(pair))[name]
            == settings(pairs)[name],
        !settings(Seq::empty()).contains_key(name),
{
    assert(pairs.push(pair).drop_last() =~= pairs);
}

/// A text flag gives the text it was set to, whatever that is, and none where
/// it was not set.
pub proof fn law_text_flags_give_their_text(flags: Flags, name: Seq<char>)
    ensures
        flags.set().contains_key(name) ==> text_or_empty(flags, name) == flags.set()[name],
        !flags.set().contains_key(name) ==> text_or_empty(flags, name).len() == 0,
{
}

} // verus!
