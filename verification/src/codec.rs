//! The store's file encoding and its parser.
//!
//! A store is rendered as a JSON object: each key appears in ascending
//! lexicographic order, bound to an object with the fields `name`,
//! `username`, `password` and `notes`, in that order. Strings escape `"`
//! and `\` with a backslash and control characters as `\u00`-prefixed hex;
//! the renderer emits no other whitespace or escapes. The parser accepts
//! whitespace between tokens, the standard short escapes, `\uXXXX` escapes
//! of scalar values, keys in any order (rejecting duplicates), and nothing
//! else; entry fields must appear in the canonical order.

use vstd::prelude::*;

use crate::order::lex_lt;
use crate::store::spec_get;
use crate::store::spec_update;
use crate::store::sorted;
use crate::store::EntryStore;
use crate::store::StoreModel;
use crate::Entry;
use crate::EntryModel;

verus! {

/// Deserialization failed: the text is not a well-formed encoding of a
/// store.
#[derive(Debug, Clone, Copy, PartialEq, Eq)]
pub struct ParseError;

/// The hexadecimal digit for a value below sixteen, lower case.
pub open spec fn spec_hex_digit(v: int) -> char {
    if v == 0 {
        '0'
    } else if v == 1 {
        '1'
    } else if v == 2 {
        '2'
    } else if v == 3 {
        '3'
    } else if v == 4 {
        '4'
    } else if v == 5 {
        '5'
    } else if v == 6 {
        '6'
    } else if v == 7 {
        '7'
    } else if v == 8 {
        '8'
    } else if v == 9 {
        '9'
    } else if v == 10 {
        'a'
    } else if v == 11 {
        'b'
    } else if v == 12 {
        'c'
    } else if v == 13 {
        'd'
    } else if v == 14 {
        'e'
    } else {
        'f'
    }
}

/// How one character is written inside a quoted string.
pub open spec fn spec_escape_char(c: char) -> Seq<char> {
    if c == '"' {
        seq!['\\', '"']
    } else if c == '\\' {
        seq!['\\', '\\']
    } else if (c as u32) < 0x20 {
        seq![
            '\\',
            'u',
            '0',
            '0',
            spec_hex_digit(((c as u32) / 16) as int),
            spec_hex_digit(((c as u32) % 16) as int),
        ]
    } else {
        seq![c]
    }
}

/// How a character sequence is written inside a quoted string.
pub open spec fn spec_escape(s: Seq<char>) -> Seq<char>
    decreases s.len(),
{
    if s.len() == 0 {
        Seq::empty()
    } else {
        spec_escape_char(s[0]) + spec_escape(s.skip(1))
    }
}

/// A quoted, escaped string.
pub open spec fn spec_quote(s: Seq<char>) -> Seq<char> {
    seq!['"'] + spec_escape(s) + seq!['"']
}

/// One `"field":"value"` member.
pub open spec fn spec_ser_field(fname: Seq<char>, v: Seq<char>) -> Seq<char> {
    spec_quote(fname) + seq![':'] + spec_quote(v)
}

pub open spec fn name_key() -> Seq<char> {
    seq!['n', 'a', 'm', 'e']
}

pub open spec fn username_key() -> Seq<char> {
    seq!['u', 's', 'e', 'r', 'n', 'a', 'm', 'e']
}

pub open spec fn password_key() -> Seq<char> {
    seq!['p', 'a', 's', 's', 'w', 'o', 'r', 'd']
}

pub open spec fn notes_key() -> Seq<char> {
    seq!['n', 'o', 't', 'e', 's']
}

/// An entry as an object with the four fields in canonical order.
pub open spec fn spec_ser_entry(e: EntryModel) -> Seq<char> {
    seq!['{'] + spec_ser_field(name_key(), e.name) + seq![','] + spec_ser_field(
        username_key(),
        e.username,
    ) + seq![','] + spec_ser_field(password_key(), e.password) + seq![','] + spec_ser_field(
        notes_key(),
        e.notes,
    ) + seq!['}']
}

/// One `"key":{...}` member of the top-level object.
pub open spec fn spec_ser_pair(p: (Seq<char>, EntryModel)) -> Seq<char> {
    spec_quote(p.0) + seq![':'] + spec_ser_entry(p.1)
}

/// The members after the first, each preceded by a comma.
pub open spec fn spec_ser_pairs_rest(m: StoreModel) -> Seq<char>
    decreases m.len(),
{
    if m.len() == 0 {
        Seq::empty()
    } else {
        seq![','] + spec_ser_pair(m[0]) + spec_ser_pairs_rest(m.skip(1))
    }
}

/// The canonical rendering of a store.
pub open spec fn spec_serialize(m: StoreModel) -> Seq<char> {
    if m.len() == 0 {
        seq!['{', '}']
    } else {
        seq!['{'] + spec_ser_pair(m[0]) + spec_ser_pairs_rest(m.skip(1)) + seq!['}']
    }
}

/// JSON whitespace, accepted between tokens.
pub open spec fn is_ws(c: char) -> bool {
    c == ' ' || c == '\t' || c == '\n' || c == '\r'
}

/// The value of a hexadecimal digit, or -1.
pub open spec fn spec_hexval(c: char) -> int {
    if c == '0' {
        0
    } else if c == '1' {
        1
    } else if c == '2' {
        2
    } else if c == '3' {
        3
    } else if c == '4' {
        4
    } else if c == '5' {
        5
    } else if c == '6' {
        6
    } else if c == '7' {
        7
    } else if c == '8' {
        8
    } else if c == '9' {
        9
    } else if c == 'a' || c == 'A' {
        10
    } else if c == 'b' || c == 'B' {
        11
    } else if c == 'c' || c == 'C' {
        12
    } else if c == 'd' || c == 'D' {
        13
    } else if c == 'e' || c == 'E' {
        14
    } else if c == 'f' || c == 'F' {
        15
    } else {
        -1
    }
}

/// The input with leading whitespace dropped.
pub open spec fn spec_skip_ws(s: Seq<char>) -> Seq<char>
    decreases s.len(),
{
    if s.len() > 0 && is_ws(s[0]) {
        spec_skip_ws(s.skip(1))
    } else {
        s
    }
}

/// The content of a quoted string from after its opening quote: the decoded
/// characters up to the closing quote, and the rest of the input. Rejects
/// raw control characters, stray backslashes, and `\u` escapes that name a
/// surrogate.
pub open spec fn spec_parse_quoted_body(s: Seq<char>) -> Option<(Seq<char>, Seq<char>)>
    decreases s.len(),
{
    if s.len() == 0 {
        None
    } else if s[0] == '"' {
        Some((Seq::empty(), s.skip(1)))
    } else if s[0] == '\\' {
        if s.len() < 2 {
            None
        } else {
            let e = s[1];
            if e == '"' || e == '\\' || e == '/' || e == 'n' || e == 't' || e == 'r' || e == 'b'
                || e == 'f' {
                let d = if e == 'n' {
                    '\n'
                } else if e == 't' {
                    '\t'
                } else if e == 'r' {
                    '\r'
                } else if e == 'b' {
                    '\u{0008}'
                } else if e == 'f' {
                    '\u{000C}'
                } else {
                    e
                };
                match spec_parse_quoted_body(s.skip(2)) {
                    None => None,
                    Some((v, r)) => Some((seq![d] + v, r)),
                }
            } else if e == 'u' {
                if s.len() < 6 || spec_hexval(s[2]) < 0 || spec_hexval(s[3]) < 0 || spec_hexval(
                    s[4],
                ) < 0 || spec_hexval(s[5]) < 0 {
                    None
                } else {
                    let v = spec_hexval(s[2]) * 4096 + spec_hexval(s[3]) * 256 + spec_hexval(s[4])
                        * 16 + spec_hexval(s[5]);
                    if v < 0xD800 || 0xE000 <= v {
                        match spec_parse_quoted_body(s.skip(6)) {
                            None => None,
                            Some((t, r)) => Some((seq![((v as u32) as char)] + t, r)),
                        }
                    } else {
                        None
                    }
                }
            } else {
                None
            }
        }
    } else if (s[0] as u32) < 0x20 {
        None
    } else {
        match spec_parse_quoted_body(s.skip(1)) {
            None => None,
            Some((v, r)) => Some((seq![s[0]] + v, r)),
        }
    }
}

/// A quoted string: its decoded content and the rest of the input.
pub open spec fn spec_parse_quoted(s: Seq<char>) -> Option<(Seq<char>, Seq<char>)> {
    if s.len() == 0 || s[0] != '"' {
        None
    } else {
        spec_parse_quoted_body(s.skip(1))
    }
}

/// One expected token character, with leading whitespace allowed.
pub open spec fn spec_expect(s: Seq<char>, c: char) -> Option<Seq<char>> {
    let t = spec_skip_ws(s);
    if t.len() > 0 && t[0] == c {
        Some(t.skip(1))
    } else {
        None
    }
}

/// One `"field":"value"` member whose field name must be `fname`: the
/// decoded value and the rest of the input.
pub open spec fn spec_parse_field(s: Seq<char>, fname: Seq<char>) -> Option<
    (Seq<char>, Seq<char>),
> {
    let t = spec_skip_ws(s);
    match spec_parse_quoted(t) {
        None => None,
        Some((k, r)) => if k != fname {
            None
        } else {
            match spec_expect(r, ':') {
                None => None,
                Some(r2) => {
                    let u = spec_skip_ws(r2);
                    spec_parse_quoted(u)
                },
            }
        },
    }
}

/// An entry object: the four fields, in canonical order.
pub open spec fn spec_parse_entry(s: Seq<char>) -> Option<(EntryModel, Seq<char>)> {
    match spec_expect(s, '{') {
        None => None,
        Some(r0) => match spec_parse_field(r0, name_key()) {
            None => None,
            Some((n, r1)) => match spec_expect(r1, ',') {
                None => None,
                Some(r1b) => match spec_parse_field(r1b, username_key()) {
                    None => None,
                    Some((u, r2)) => match spec_expect(r2, ',') {
                        None => None,
                        Some(r2b) => match spec_parse_field(r2b, password_key()) {
                            None => None,
                            Some((p, r3)) => match spec_expect(r3, ',') {
                                None => None,
                                Some(r3b) => match spec_parse_field(r3b, notes_key()) {
                                    None => None,
                                    Some((t, r4)) => match spec_expect(r4, '}') {
                                        None => None,
                                        Some(r5) => Some(
                                            (
                                                EntryModel {
                                                    name: n,
                                                    username: u,
                                                    password: p,
                                                    notes: t,
                                                },
                                                r5,
                                            ),
                                        ),
                                    },
                                },
                            },
                        },
                    },
                },
            },
        },
    }
}

/// One `"key":{...}` member of the top-level object.
pub open spec fn spec_parse_pair(s: Seq<char>) -> Option<((Seq<char>, EntryModel), Seq<char>)> {
    let t = spec_skip_ws(s);
    match spec_parse_quoted(t) {
        None => None,
        Some((k, r)) => match spec_expect(r, ':') {
            None => None,
            Some(r2) => match spec_parse_entry(r2) {
                None => None,
                Some((e, r3)) => Some(((k, e), r3)),
            },
        },
    }
}

/// Dropping whitespace never lengthens the input.
pub proof fn lemma_skip_ws_len(s: Seq<char>)
    ensures
        spec_skip_ws(s).len() <= s.len(),
    decreases s.len(),
{
    if s.len() > 0 && is_ws(s[0]) {
        lemma_skip_ws_len(s.skip(1));
    }
}

/// A parsed string body consumes at least its closing quote.
pub proof fn lemma_parse_quoted_body_len(s: Seq<char>)
    ensures
        match spec_parse_quoted_body(s) {
            Some((v, r)) => r.len() < s.len(),
            None => true,
        },
    decreases s.len(),
{
    if s.len() > 0 && s[0] != '"' {
        lemma_parse_quoted_body_len(s.skip(1));
        if s.len() >= 2 {
            lemma_parse_quoted_body_len(s.skip(2));
        }
        if s.len() >= 6 {
            lemma_parse_quoted_body_len(s.skip(6));
        }
    }
}

/// A parsed string consumes at least its quotes.
pub proof fn lemma_parse_quoted_len(s: Seq<char>)
    ensures
        match spec_parse_quoted(s) {
            Some((v, r)) => r.len() < s.len(),
            None => true,
        },
{
    if s.len() > 0 && s[0] == '"' {
        lemma_parse_quoted_body_len(s.skip(1));
    }
}

/// An expected token consumes at least itself.
pub proof fn lemma_expect_len(s: Seq<char>, c: char)
    ensures
        match spec_expect(s, c) {
            Some(r) => r.len() < s.len(),
            None => true,
        },
{
    lemma_skip_ws_len(s);
}

/// A parsed field consumes at least its tokens.
pub proof fn lemma_parse_field_len(s: Seq<char>, fname: Seq<char>)
    ensures
        match spec_parse_field(s, fname) {
            Some((v, r)) => r.len() < s.len(),
            None => true,
        },
{
    let t = spec_skip_ws(s);
    lemma_skip_ws_len(s);
    lemma_parse_quoted_len(t);
    if spec_parse_quoted(t) is Some {
        let (k, r) = spec_parse_quoted(t)->Some_0;
        lemma_expect_len(r, ':');
        if spec_expect(r, ':') is Some {
            let r2 = spec_expect(r, ':')->Some_0;
            lemma_skip_ws_len(r2);
            lemma_parse_quoted_len(spec_skip_ws(r2));
        }
    }
}

/// A parsed entry consumes at least its braces.
pub proof fn lemma_parse_entry_len(s: Seq<char>)
    ensures
        match spec_parse_entry(s) {
            Some((e, r)) => r.len() < s.len(),
            None => true,
        },
{
    lemma_expect_len(s, '{');
    if spec_expect(s, '{') is Some {
        let r0 = spec_expect(s, '{')->Some_0;
        lemma_parse_field_len(r0, name_key());
        if spec_parse_field(r0, name_key()) is Some {
            let r1 = spec_parse_field(r0, name_key())->Some_0.1;
            lemma_expect_len(r1, ',');
            if spec_expect(r1, ',') is Some {
                let r1b = spec_expect(r1, ',')->Some_0;
                lemma_parse_field_len(r1b, username_key());
                if spec_parse_field(r1b, username_key()) is Some {
                    let r2 = spec_parse_field(r1b, username_key())->Some_0.1;
                    lemma_expect_len(r2, ',');
                    if spec_expect(r2, ',') is Some {
                        let r2b = spec_expect(r2, ',')->Some_0;
                        lemma_parse_field_len(r2b, password_key());
                        if spec_parse_field(r2b, password_key()) is Some {
                            let r3 = spec_parse_field(r2b, password_key())->Some_0.1;
                            lemma_expect_len(r3, ',');
                            if spec_expect(r3, ',') is Some {
                                let r3b = spec_expect(r3, ',')->Some_0;
                                lemma_parse_field_len(r3b, notes_key());
                                if spec_parse_field(r3b, notes_key()) is Some {
                                    let r4 = spec_parse_field(r3b, notes_key())->Some_0.1;
                                    lemma_expect_len(r4, '}');
                                }
                            }
                        }
                    }
                }
            }
        }
    }
}

/// A parsed member consumes at least its tokens.
pub proof fn lemma_parse_pair_len(s: Seq<char>)
    ensures
        match spec_parse_pair(s) {
            Some((p, r)) => r.len() < s.len(),
            None => true,
        },
{
    let t = spec_skip_ws(s);
    lemma_skip_ws_len(s);
    lemma_parse_quoted_len(t);
    if spec_parse_quoted(t) is Some {
        let r = spec_parse_quoted(t)->Some_0.1;
        lemma_expect_len(r, ':');
        if spec_expect(r, ':') is Some {
            let r2 = spec_expect(r, ':')->Some_0;
            lemma_parse_entry_len(r2);
        }
    }
}

/// The members of the top-level object after the first, each preceded by a
/// comma, up to and including the closing brace.
pub open spec fn spec_parse_pairs_rest(s: Seq<char>) -> Option<
    (Seq<(Seq<char>, EntryModel)>, Seq<char>),
>
    decreases s.len(),
    via spec_parse_pairs_rest_decreases
{
    let t = spec_skip_ws(s);
    if t.len() == 0 {
        None
    } else if t[0] == '}' {
        Some((Seq::empty(), t.skip(1)))
    } else if t[0] == ',' {
        match spec_parse_pair(t.skip(1)) {
            None => None,
            Some((p, r)) => match spec_parse_pairs_rest(r) {
                None => None,
                Some((ps, r2)) => Some((seq![p] + ps, r2)),
            },
        }
    } else {
        None
    }
}

#[via_fn]
proof fn spec_parse_pairs_rest_decreases(s: Seq<char>) {
    lemma_skip_ws_len(s);
    let t = spec_skip_ws(s);
    if t.len() > 0 && t[0] != '}' && t[0] == ',' {
        lemma_parse_pair_len(t.skip(1));
    }
}

/// The top-level object: its members in written order, and the rest of the
/// input.
pub open spec fn spec_parse_store(s: Seq<char>) -> Option<
    (Seq<(Seq<char>, EntryModel)>, Seq<char>),
> {
    match spec_expect(s, '{') {
        None => None,
        Some(t) => {
            let u = spec_skip_ws(t);
            if u.len() == 0 {
                None
            } else if u[0] == '}' {
                Some((Seq::empty(), u.skip(1)))
            } else {
                match spec_parse_pair(u) {
                    None => None,
                    Some((p, r)) => match spec_parse_pairs_rest(r) {
                        None => None,
                        Some((ps, r2)) => Some((seq![p] + ps, r2)),
                    },
                }
            }
        },
    }
}

/// Folds parsed members into a store, left to right, rejecting a key seen
/// twice.
pub open spec fn spec_build(ps: Seq<(Seq<char>, EntryModel)>, acc: StoreModel) -> Option<
    StoreModel,
>
    decreases ps.len(),
{
    if ps.len() == 0 {
        Some(acc)
    } else if spec_get(acc, ps[0].0) is Some {
        None
    } else {
        spec_build(ps.skip(1), spec_update(acc, ps[0].0, ps[0].1))
    }
}

/// What `deserialize` accepts, and the store it yields: a full parse of the
/// input with nothing but whitespace after the object, whose keys are all
/// distinct.
pub open spec fn spec_deserialize(t: Seq<char>) -> Option<StoreModel> {
    match spec_parse_store(t) {
        None => None,
        Some((ps, r)) => if spec_skip_ws(r).len() != 0 {
            None
        } else {
            spec_build(ps, Seq::empty())
        },
    }
}

/// Relies on String::push: appends exactly the given character.
#[verifier::external_body]
pub(crate) fn push_char(out: &mut String, c: char)
    ensures
        final(out)@ == old(out)@ + seq![c],
{
    out.push(c);
}

/// Relies on char::from_u32: a Unicode scalar value converts to the `char`
/// with that value. The precondition excludes surrogates and out-of-range
/// values, for which `char::from_u32` returns `None`.
#[verifier::external_body]
fn char_from_u32(v: u32) -> (r: char)
    requires
        v < 0xD800 || (0xE000 <= v && v < 0x110000),
    ensures
        r as u32 == v,
{
    match char::from_u32(v) {
        Some(c) => c,
        None => ' ',
    }
}

/// Builds a string from a sequence of characters.
fn chars_to_string(v: &Vec<char>) -> (r: String)
    ensures
        r@ == v@,
{
    let mut out = String::new();
    let n = v.len();
    let mut i: usize = 0;
    proof {
        assert(out@ =~= v@.take(0));
    }
    while i < n
        invariant
            0 <= i <= n,
            n == v@.len(),
            out@ == v@.take(i as int),
        decreases n - i,
    {
        push_char(&mut out, v[i]);
        proof {
            assert(v@.take(i as int) + seq![v@[i as int]] =~= v@.take(i as int + 1));
        }
        i = i + 1;
    }
    proof {
        assert(v@.take(n as int) =~= v@);
    }
    out
}

/// The characters of a string, in order.
pub(crate) fn str_to_chars(s: &str) -> (r: Vec<char>)
    ensures
        r@ == s@,
{
    let mut out: Vec<char> = Vec::new();
    let n = s.unicode_len();
    let mut i: usize = 0;
    while i < n
        invariant
            0 <= i <= n,
            n == s@.len(),
            out@.len() == i,
            forall|j: int| 0 <= j < i ==> out@[j] == s@[j],
        decreases n - i,
    {
        out.push(s.get_char(i));
        i = i + 1;
    }
    proof {
        assert(out@ =~= s@);
    }
    out
}

/// Whether the characters spell exactly the given string.
fn vec_is_lit(v: &Vec<char>, lit: &str) -> (r: bool)
    ensures
        r == (v@ == lit@),
{
    let s = chars_to_string(v);
    let l = String::from_str(lit);
    s == l
}

/// Whitespace test for the parser.
fn is_ws_char(c: char) -> (r: bool)
    ensures
        r == is_ws(c),
{
    c == ' ' || c == '\t' || c == '\n' || c == '\r'
}

/// The value of a hexadecimal digit, if it is one.
fn hex_val(c: char) -> (r: Option<u32>)
    ensures
        match r {
            Some(v) => v < 16 && spec_hexval(c) == v,
            None => spec_hexval(c) < 0,
        },
{
    if c == '0' {
        Some(0)
    } else if c == '1' {
        Some(1)
    } else if c == '2' {
        Some(2)
    } else if c == '3' {
        Some(3)
    } else if c == '4' {
        Some(4)
    } else if c == '5' {
        Some(5)
    } else if c == '6' {
        Some(6)
    } else if c == '7' {
        Some(7)
    } else if c == '8' {
        Some(8)
    } else if c == '9' {
        Some(9)
    } else if c == 'a' || c == 'A' {
        Some(10)
    } else if c == 'b' || c == 'B' {
        Some(11)
    } else if c == 'c' || c == 'C' {
        Some(12)
    } else if c == 'd' || c == 'D' {
        Some(13)
    } else if c == 'e' || c == 'E' {
        Some(14)
    } else if c == 'f' || c == 'F' {
        Some(15)
    } else {
        None
    }
}

/// Advances past whitespace.
fn skip_ws_from(s: &Vec<char>, i: usize) -> (r: usize)
    requires
        i <= s@.len(),
    ensures
        i <= r <= s@.len(),
        spec_skip_ws(s@.skip(i as int)) == s@.skip(r as int),
    decreases s@.len() - i,
{
    if i < s.len() && is_ws_char(s[i]) {
        proof {
            assert(s@.skip(i as int)[0] == s@[i as int]);
            assert(s@.skip(i as int).skip(1) =~= s@.skip(i as int + 1));
        }
        skip_ws_from(s, i + 1)
    } else {
        proof {
            if i == s@.len() {
                assert(s@.skip(i as int) =~= Seq::<char>::empty());
            } else {
                assert(s@.skip(i as int)[0] == s@[i as int]);
            }
        }
        i
    }
}

/// Parses the rest of a quoted string, after its opening quote.
fn parse_quoted_body(s: &Vec<char>, i: usize) -> (r: Option<(Vec<char>, usize)>)
    requires
        i <= s@.len(),
    ensures
        match r {
            None => spec_parse_quoted_body(s@.skip(i as int)) is None,
            Some(p) => i < p.1 <= s@.len() && spec_parse_quoted_body(s@.skip(i as int)) == Some(
                (p.0@, s@.skip(p.1 as int)),
            ),
        },
    decreases s@.len() - i,
{
    let n = s.len();
    proof {
        assert(forall|j: int|
            0 <= j < s@.skip(i as int).len() ==> s@.skip(i as int)[j] == s@[i + j]);
    }
    if i >= n {
        return None;
    }
    let c = s[i];
    if c == '"' {
        let v: Vec<char> = Vec::new();
        proof {
            assert(v@ =~= Seq::<char>::empty());
            assert(s@.skip(i as int).skip(1) =~= s@.skip(i as int + 1));
        }
        return Some((v, i + 1));
    }
    if c == '\\' {
        if i + 1 >= n {
            return None;
        }
        let e = s[i + 1];
        if e == '"' || e == '\\' || e == '/' || e == 'n' || e == 't' || e == 'r' || e == 'b' || e
            == 'f' {
            let d = if e == 'n' {
                '\n'
            } else if e == 't' {
                '\t'
            } else if e == 'r' {
                '\r'
            } else if e == 'b' {
                '\u{0008}'
            } else if e == 'f' {
                '\u{000C}'
            } else {
                e
            };
            proof {
                assert(s@.skip(i as int).skip(2) =~= s@.skip(i as int + 2));
            }
            match parse_quoted_body(s, i + 2) {
                None => None,
                Some((mut tail, j)) => {
                    let ghost t0 = tail@;
                    tail.insert(0, d);
                    proof {
                        assert(tail@ =~= seq![d] + t0);
                    }
                    Some((tail, j))
                },
            }
        } else if e == 'u' {
            if n - i < 6 {
                return None;
            }
            let h2 = match hex_val(s[i + 2]) {
                Some(h) => h,
                None => {
                    return None;
                },
            };
            let h3 = match hex_val(s[i + 3]) {
                Some(h) => h,
                None => {
                    return None;
                },
            };
            let h4 = match hex_val(s[i + 4]) {
                Some(h) => h,
                None => {
                    return None;
                },
            };
            let h5 = match hex_val(s[i + 5]) {
                Some(h) => h,
                None => {
                    return None;
                },
            };
            let v: u32 = h2 * 4096 + h3 * 256 + h4 * 16 + h5;
            if !(v < 0xD800 || 0xE000 <= v) {
                return None;
            }
            let d = char_from_u32(v);
            proof {
                vstd::utf8::char_u32_cast(d, v);
                assert(s@.skip(i as int).skip(6) =~= s@.skip(i as int + 6));
            }
            match parse_quoted_body(s, i + 6) {
                None => None,
                Some((mut tail, j)) => {
                    let ghost t0 = tail@;
                    tail.insert(0, d);
                    proof {
                        assert(tail@ =~= seq![d] + t0);
                    }
                    Some((tail, j))
                },
            }
        } else {
            None
        }
    } else if (c as u32) < 0x20 {
        None
    } else {
        proof {
            assert(s@.skip(i as int).skip(1) =~= s@.skip(i as int + 1));
        }
        match parse_quoted_body(s, i + 1) {
            None => None,
            Some((mut tail, j)) => {
                let ghost t0 = tail@;
                tail.insert(0, c);
                proof {
                    assert(tail@ =~= seq![c] + t0);
                }
                Some((tail, j))
            },
        }
    }
}

/// Parses a quoted string.
fn parse_quoted(s: &Vec<char>, i: usize) -> (r: Option<(Vec<char>, usize)>)
    requires
        i <= s@.len(),
    ensures
        match r {
            None => spec_parse_quoted(s@.skip(i as int)) is None,
            Some(p) => i < p.1 <= s@.len() && spec_parse_quoted(s@.skip(i as int)) == Some(
                (p.0@, s@.skip(p.1 as int)),
            ),
        },
{
    proof {
        if i < s@.len() {
            assert(s@.skip(i as int)[0] == s@[i as int]);
        }
    }
    if i >= s.len() || !(s[i] == '"') {
        return None;
    }
    proof {
        assert(s@.skip(i as int).skip(1) =~= s@.skip(i as int + 1));
    }
    parse_quoted_body(s, i + 1)
}

/// Parses one expected token character, past leading whitespace.
fn expect_tok(s: &Vec<char>, i: usize, c: char) -> (r: Option<usize>)
    requires
        i <= s@.len(),
    ensures
        match r {
            None => spec_expect(s@.skip(i as int), c) is None,
            Some(j) => i < j <= s@.len() && spec_expect(s@.skip(i as int), c) == Some(
                s@.skip(j as int),
            ),
        },
{
    let j = skip_ws_from(s, i);
    proof {
        if j < s@.len() {
            assert(s@.skip(j as int)[0] == s@[j as int]);
            assert(s@.skip(j as int).skip(1) =~= s@.skip(j as int + 1));
        } else {
            assert(s@.skip(j as int) =~= Seq::<char>::empty());
        }
    }
    if j < s.len() && s[j] == c {
        Some(j + 1)
    } else {
        None
    }
}

/// Parses one `"field":"value"` member whose field name must be `fname`.
fn parse_field(s: &Vec<char>, i: usize, fname: &str) -> (r: Option<(Vec<char>, usize)>)
    requires
        i <= s@.len(),
    ensures
        match r {
            None => spec_parse_field(s@.skip(i as int), fname@) is None,
            Some(p) => i < p.1 <= s@.len() && spec_parse_field(s@.skip(i as int), fname@) == Some(
                (p.0@, s@.skip(p.1 as int)),
            ),
        },
{
    let j = skip_ws_from(s, i);
    match parse_quoted(s, j) {
        None => None,
        Some((k, j2)) => {
            if !vec_is_lit(&k, fname) {
                None
            } else {
                match expect_tok(s, j2, ':') {
                    None => None,
                    Some(j3) => {
                        let j4 = skip_ws_from(s, j3);
                        match parse_quoted(s, j4) {
                            None => None,
                            Some((v, j5)) => Some((v, j5)),
                        }
                    },
                }
            }
        },
    }
}

/// Parses an entry object with the four fields in canonical order.
fn parse_entry(s: &Vec<char>, i: usize) -> (r: Option<(Entry, usize)>)
    requires
        i <= s@.len(),
    ensures
        match r {
            None => spec_parse_entry(s@.skip(i as int)) is None,
            Some(p) => i < p.1 <= s@.len() && spec_parse_entry(s@.skip(i as int)) == Some(
                (p.0@, s@.skip(p.1 as int)),
            ),
        },
{
    proof {
        reveal_strlit("name");
        reveal_strlit("username");
        reveal_strlit("password");
        reveal_strlit("notes");
        assert("name"@ =~= name_key());
        assert("username"@ =~= username_key());
        assert("password"@ =~= password_key());
        assert("notes"@ =~= notes_key());
    }
    let r0 = match expect_tok(s, i, '{') {
        Some(j) => j,
        None => {
            return None;
        },
    };
    let (n, r1) = match parse_field(s, r0, "name") {
        Some(p) => p,
        None => {
            return None;
        },
    };
    let r1b = match expect_tok(s, r1, ',') {
        Some(j) => j,
        None => {
            return None;
        },
    };
    let (u, r2) = match parse_field(s, r1b, "username") {
        Some(p) => p,
        None => {
            return None;
        },
    };
    let r2b = match expect_tok(s, r2, ',') {
        Some(j) => j,
        None => {
            return None;
        },
    };
    let (pw, r3) = match parse_field(s, r2b, "password") {
        Some(p) => p,
        None => {
            return None;
        },
    };
    let r3b = match expect_tok(s, r3, ',') {
        Some(j) => j,
        None => {
            return None;
        },
    };
    let (t, r4) = match parse_field(s, r3b, "notes") {
        Some(p) => p,
        None => {
            return None;
        },
    };
    let r5 = match expect_tok(s, r4, '}') {
        Some(j) => j,
        None => {
            return None;
        },
    };
    let entry = Entry {
        name: chars_to_string(&n),
        username: chars_to_string(&u),
        password: chars_to_string(&pw),
        notes: chars_to_string(&t),
    };
    Some((entry, r5))
}

/// Parses one `"key":{...}` member of the top-level object.
fn parse_pair(s: &Vec<char>, i: usize) -> (r: Option<((String, Entry), usize)>)
    requires
        i <= s@.len(),
    ensures
        match r {
            None => spec_parse_pair(s@.skip(i as int)) is None,
            Some(p) => i < p.1 <= s@.len() && spec_parse_pair(s@.skip(i as int)) == Some(
                ((p.0.0@, p.0.1@), s@.skip(p.1 as int)),
            ),
        },
{
    let j = skip_ws_from(s, i);
    let (k, j2) = match parse_quoted(s, j) {
        Some(p) => p,
        None => {
            return None;
        },
    };
    let j3 = match expect_tok(s, j2, ':') {
        Some(j3) => j3,
        None => {
            return None;
        },
    };
    let (e, j4) = match parse_entry(s, j3) {
        Some(p) => p,
        None => {
            return None;
        },
    };
    Some(((chars_to_string(&k), e), j4))
}

/// The members as parsed, before duplicate keys are rejected.
pub open spec fn pairs_view(v: Seq<(String, Entry)>) -> Seq<(Seq<char>, EntryModel)> {
    Seq::new(v.len(), |i: int| (v[i].0@, v[i].1@))
}

/// Parses the members after the first, up to the closing brace.
fn parse_pairs_rest(s: &Vec<char>, i: usize) -> (r: Option<(Vec<(String, Entry)>, usize)>)
    requires
        i <= s@.len(),
    ensures
        match r {
            None => spec_parse_pairs_rest(s@.skip(i as int)) is None,
            Some(p) => p.1 <= s@.len() && spec_parse_pairs_rest(s@.skip(i as int)) == Some(
                (pairs_view(p.0@), s@.skip(p.1 as int)),
            ),
        },
    decreases s@.len() - i,
{
    let j = skip_ws_from(s, i);
    proof {
        if j < s@.len() {
            assert(s@.skip(j as int)[0] == s@[j as int]);
            assert(s@.skip(j as int).skip(1) =~= s@.skip(j as int + 1));
        } else {
            assert(s@.skip(j as int) =~= Seq::<char>::empty());
        }
    }
    if j >= s.len() {
        return None;
    }
    let c = s[j];
    if c == '}' {
        let v: Vec<(String, Entry)> = Vec::new();
        proof {
            assert(pairs_view(v@) =~= Seq::<(Seq<char>, EntryModel)>::empty());
        }
        return Some((v, j + 1));
    }
    if c == ',' {
        let (p, j2) = match parse_pair(s, j + 1) {
            Some(p) => p,
            None => {
                return None;
            },
        };
        match parse_pairs_rest(s, j2) {
            None => None,
            Some((mut rest, j3)) => {
                let ghost r0 = rest@;
                rest.insert(0, p);
                proof {
                    assert(pairs_view(rest@) =~= seq![(rest@[0].0@, rest@[0].1@)] + pairs_view(
                        r0,
                    ));
                }
                Some((rest, j3))
            },
        }
    } else {
        None
    }
}

/// Parses the top-level object.
fn parse_store(s: &Vec<char>, i: usize) -> (r: Option<(Vec<(String, Entry)>, usize)>)
    requires
        i <= s@.len(),
    ensures
        match r {
            None => spec_parse_store(s@.skip(i as int)) is None,
            Some(p) => p.1 <= s@.len() && spec_parse_store(s@.skip(i as int)) == Some(
                (pairs_view(p.0@), s@.skip(p.1 as int)),
            ),
        },
{
    let t = match expect_tok(s, i, '{') {
        Some(j) => j,
        None => {
            return None;
        },
    };
    let u = skip_ws_from(s, t);
    proof {
        if u < s@.len() {
            assert(s@.skip(u as int)[0] == s@[u as int]);
            assert(s@.skip(u as int).skip(1) =~= s@.skip(u as int + 1));
        } else {
            assert(s@.skip(u as int) =~= Seq::<char>::empty());
        }
    }
    if u >= s.len() {
        return None;
    }
    if s[u] == '}' {
        let v: Vec<(String, Entry)> = Vec::new();
        proof {
            assert(pairs_view(v@) =~= Seq::<(Seq<char>, EntryModel)>::empty());
        }
        return Some((v, u + 1));
    }
    let (p, j) = match parse_pair(s, u) {
        Some(p) => p,
        None => {
            return None;
        },
    };
    match parse_pairs_rest(s, j) {
        None => None,
        Some((mut rest, j2)) => {
            let ghost r0 = rest@;
            rest.insert(0, p);
            proof {
                assert(pairs_view(rest@) =~= seq![(rest@[0].0@, rest@[0].1@)] + pairs_view(r0));
            }
            Some((rest, j2))
        },
    }
}

/// Folds parsed members into a store, rejecting a key seen twice.
fn build_store(pairs: &Vec<(String, Entry)>) -> (r: Option<EntryStore>)
    ensures
        match r {
            None => spec_build(pairs_view(pairs@), Seq::empty()) is None,
            Some(st) => st.wf() && spec_build(pairs_view(pairs@), Seq::empty()) == Some(st@),
        },
{
    let ghost pv = pairs_view(pairs@);
    let mut st = EntryStore::new();
    let n = pairs.len();
    let mut i: usize = 0;
    proof {
        assert(pv.skip(0) =~= pv);
    }
    while i < n
        invariant
            0 <= i <= n,
            n == pv.len(),
            pv == pairs_view(pairs@),
            st.wf(),
            spec_build(pv.skip(i as int), st@) == spec_build(pv, Seq::empty()),
        decreases n - i,
    {
        proof {
            assert(pv.skip(i as int)[0] == pv[i as int]);
            assert(pv.skip(i as int).skip(1) =~= pv.skip(i as int + 1));
        }
        let key = pairs[i].0.clone();
        let entry = pairs[i].1.clone();
        if st.contains_key(key.as_str()) {
            return None;
        }
        st = st.update(key, entry);
        i = i + 1;
    }
    proof {
        assert(pv.skip(n as int) =~= Seq::<(Seq<char>, EntryModel)>::empty());
    }
    Some(st)
}

impl EntryStore {
    /// Parses a store from its encoding: a JSON object of entry objects,
    /// with distinct keys and nothing but whitespace after it. Returns
    /// exactly the store whose encoding was read, and an error on any text
    /// this module's grammar refuses.
    pub fn deserialize(json: &str) -> (r: Result<EntryStore, ParseError>)
        ensures
            match r {
                Ok(st) => st.wf() && spec_deserialize(json@) == Some(st@),
                Err(_) => spec_deserialize(json@) is None,
            },
    {
        let chars = str_to_chars(json);
        proof {
            assert(chars@.skip(0) =~= json@);
        }
        let (pairs, j) = match parse_store(&chars, 0) {
            Some(p) => p,
            None => {
                return Err(ParseError);
            },
        };
        let j2 = skip_ws_from(&chars, j);
        if j2 < chars.len() {
            proof {
                assert(spec_skip_ws(chars@.skip(j as int)).len() != 0);
            }
            return Err(ParseError);
        }
        proof {
            assert(chars@.skip(j2 as int) =~= Seq::<char>::empty());
        }
        match build_store(&pairs) {
            Some(st) => Ok(st),
            None => Err(ParseError),
        }
    }
}

/// A hexadecimal digit reads back as its value.
proof fn lemma_hex_roundtrip(d: int)
    requires
        0 <= d < 16,
    ensures
        spec_hexval(spec_hex_digit(d)) == d,
{
}

/// A sequence with one character in front: its head and its tail.
proof fn lemma_cons_skip(c: char, x: Seq<char>)
    ensures
        (seq![c] + x).len() == x.len() + 1,
        (seq![c] + x)[0] == c,
        (seq![c] + x).skip(1) == x,
{
    assert((seq![c] + x).skip(1) =~= x);
}

/// Leading whitespace skipping does nothing where none stands.
proof fn lemma_skip_ws_nonws(s: Seq<char>)
    requires
        s.len() == 0 || !is_ws(s[0]),
    ensures
        spec_skip_ws(s) == s,
{
}

/// Parsing reads back exactly what escaping wrote, up to the closing
/// quote.
proof fn lemma_parse_body_of_escape(v: Seq<char>, rest: Seq<char>)
    ensures
        spec_parse_quoted_body(spec_escape(v) + seq!['"'] + rest) == Some((v, rest)),
    decreases v.len(),
{
    let s = spec_escape(v) + seq!['"'] + rest;
    if v.len() == 0 {
        assert(s =~= seq!['"'] + rest);
        assert(s[0] == '"');
        assert(s.skip(1) =~= rest);
    } else {
        let c = v[0];
        let v1 = v.skip(1);
        lemma_parse_body_of_escape(v1, rest);
        let s1 = spec_escape(v1) + seq!['"'] + rest;
        assert(spec_escape(v) == spec_escape_char(c) + spec_escape(v1));
        if c == '"' || c == '\\' {
            assert(s[0] == '\\' && s[1] == c);
            assert(s.len() >= 2);
            assert(s.skip(2) =~= s1);
            assert(seq![c] + v1 =~= v);
        } else if (c as u32) < 0x20 {
            let hi = ((c as u32) / 16) as int;
            let lo = ((c as u32) % 16) as int;
            lemma_hex_roundtrip(hi);
            lemma_hex_roundtrip(lo);
            assert(s[0] == '\\' && s[1] == 'u' && s[2] == '0' && s[3] == '0' && s[4]
                == spec_hex_digit(hi) && s[5] == spec_hex_digit(lo));
            assert(s.len() >= 6);
            assert(spec_hexval(s[2]) == 0 && spec_hexval(s[3]) == 0);
            let val = spec_hexval(s[2]) * 4096 + spec_hexval(s[3]) * 256 + spec_hexval(s[4]) * 16
                + spec_hexval(s[5]);
            assert(val == c as u32) by {
                assert(16 * ((c as u32) as int / 16) + (c as u32) as int % 16 == (c as u32) as int);
            }
            vstd::utf8::char_u32_cast(c, c as u32);
            assert(((val as u32) as char) == c);
            assert(s.skip(6) =~= s1);
            assert(seq![c] + v1 =~= v);
        } else {
            assert(s[0] == c);
            assert(c != '"' && c != '\\' && !((c as u32) < 0x20));
            assert(s.skip(1) =~= s1);
            assert(seq![c] + v1 =~= v);
        }
    }
}

/// Parsing reads back exactly what quoting wrote.
proof fn lemma_parse_quoted_of_quote(v: Seq<char>, rest: Seq<char>)
    ensures
        spec_parse_quoted(spec_quote(v) + rest) == Some((v, rest)),
{
    let s = spec_quote(v) + rest;
    assert(s[0] == '"');
    assert(s.skip(1) =~= spec_escape(v) + seq!['"'] + rest);
    lemma_parse_body_of_escape(v, rest);
}

/// A token reads back where it was written, with nothing before it.
proof fn lemma_expect_of(c: char, rest: Seq<char>)
    requires
        !is_ws(c),
    ensures
        spec_expect(seq![c] + rest, c) == Some(rest),
{
    let s = seq![c] + rest;
    assert(s[0] == c);
    lemma_skip_ws_nonws(s);
    assert(s.skip(1) =~= rest);
}

/// A field reads back exactly what was written for it.
proof fn lemma_parse_field_of_ser(fname: Seq<char>, v: Seq<char>, rest: Seq<char>)
    ensures
        spec_parse_field(spec_ser_field(fname, v) + rest, fname) == Some((v, rest)),
{
    let s = spec_ser_field(fname, v) + rest;
    let r1 = seq![':'] + spec_quote(v) + rest;
    assert(s =~= spec_quote(fname) + r1);
    assert(s[0] == '"');
    lemma_skip_ws_nonws(s);
    lemma_parse_quoted_of_quote(fname, r1);
    lemma_expect_of(':', spec_quote(v) + rest);
    assert(r1 =~= seq![':'] + (spec_quote(v) + rest));
    assert((spec_quote(v) + rest)[0] == '"');
    lemma_skip_ws_nonws(spec_quote(v) + rest);
    lemma_parse_quoted_of_quote(v, rest);
}

/// An entry reads back exactly what was written for it.
#[verifier::rlimit(100)]
proof fn lemma_parse_entry_of_ser(e: EntryModel, rest: Seq<char>)
    ensures
        spec_parse_entry(spec_ser_entry(e) + rest) == Some((e, rest)),
{
    let s = spec_ser_entry(e) + rest;
    let a1 = spec_ser_field(name_key(), e.name);
    let a2 = spec_ser_field(username_key(), e.username);
    let a3 = spec_ser_field(password_key(), e.password);
    let a4 = spec_ser_field(notes_key(), e.notes);
    let t0 = a1 + seq![','] + a2 + seq![','] + a3 + seq![','] + a4 + seq!['}'] + rest;
    assert(s =~= seq!['{'] + t0);
    lemma_expect_of('{', t0);
    let u1 = seq![','] + a2 + seq![','] + a3 + seq![','] + a4 + seq!['}'] + rest;
    assert(t0 =~= a1 + u1);
    lemma_parse_field_of_ser(name_key(), e.name, u1);
    let t1 = a2 + seq![','] + a3 + seq![','] + a4 + seq!['}'] + rest;
    assert(u1 =~= seq![','] + t1);
    lemma_expect_of(',', t1);
    let u2 = seq![','] + a3 + seq![','] + a4 + seq!['}'] + rest;
    assert(t1 =~= a2 + u2);
    lemma_parse_field_of_ser(username_key(), e.username, u2);
    let t2 = a3 + seq![','] + a4 + seq!['}'] + rest;
    assert(u2 =~= seq![','] + t2);
    lemma_expect_of(',', t2);
    let u3 = seq![','] + a4 + seq!['}'] + rest;
    assert(t2 =~= a3 + u3);
    lemma_parse_field_of_ser(password_key(), e.password, u3);
    let t3 = a4 + seq!['}'] + rest;
    assert(u3 =~= seq![','] + t3);
    lemma_expect_of(',', t3);
    assert(t3 =~= a4 + (seq!['}'] + rest));
    lemma_parse_field_of_ser(notes_key(), e.notes, seq!['}'] + rest);
    lemma_expect_of('}', rest);
    assert(EntryModel { name: e.name, username: e.username, password: e.password, notes: e.notes }
        =~= e);
}

/// A member reads back exactly what was written for it.
proof fn lemma_parse_pair_of_ser(p: (Seq<char>, EntryModel), rest: Seq<char>)
    ensures
        spec_parse_pair(spec_ser_pair(p) + rest) == Some((p, rest)),
{
    let s = spec_ser_pair(p) + rest;
    let r1 = seq![':'] + spec_ser_entry(p.1) + rest;
    assert(s =~= spec_quote(p.0) + r1);
    assert(s[0] == '"');
    lemma_skip_ws_nonws(s);
    lemma_parse_quoted_of_quote(p.0, r1);
    assert(r1 =~= seq![':'] + (spec_ser_entry(p.1) + rest));
    lemma_expect_of(':', spec_ser_entry(p.1) + rest);
    lemma_parse_entry_of_ser(p.1, rest);
    assert((p.0, p.1) == p);
}

/// The members after the first read back exactly as written.
#[verifier::rlimit(100)]
proof fn lemma_parse_rest_of_ser(m: StoreModel, rest: Seq<char>)
    ensures
        spec_parse_pairs_rest(spec_ser_pairs_rest(m) + seq!['}'] + rest) == Some((m, rest)),
    decreases m.len(),
{
    let s = spec_ser_pairs_rest(m) + seq!['}'] + rest;
    if m.len() == 0 {
        assert(s =~= seq!['}'] + rest);
        assert(s[0] == '}');
        lemma_skip_ws_nonws(s);
        assert(s.skip(1) =~= rest);
        assert(m =~= Seq::<(Seq<char>, EntryModel)>::empty());
    } else {
        let m1 = m.skip(1);
        lemma_parse_rest_of_ser(m1, rest);
        let p = spec_ser_pair(m[0]);
        let b = spec_ser_pairs_rest(m1);
        let s1 = b + seq!['}'] + rest;
        let a = seq![','] + p;
        assert(spec_ser_pairs_rest(m) == a + b);
        vstd::seq_lib::lemma_concat_associative(a + b, seq!['}'], rest);
        vstd::seq_lib::lemma_concat_associative(a, b, seq!['}'] + rest);
        vstd::seq_lib::lemma_concat_associative(b, seq!['}'], rest);
        assert(s == a + s1);
        vstd::seq_lib::lemma_concat_associative(seq![','], p, s1);
        assert(s == seq![','] + (p + s1));
        lemma_cons_skip(',', p + s1);
        lemma_skip_ws_nonws(s);
        lemma_parse_pair_of_ser(m[0], s1);
        assert(seq![m[0]] + m1 =~= m);
    }
}

/// The top-level object reads back exactly as written.
proof fn lemma_parse_store_of_ser(m: StoreModel)
    ensures
        spec_parse_store(spec_serialize(m)) == Some((m, Seq::<char>::empty())),
{
    let s = spec_serialize(m);
    let e = Seq::<char>::empty();
    if m.len() == 0 {
        let t0 = seq!['}'];
        assert(s =~= seq!['{'] + t0);
        lemma_expect_of('{', t0);
        assert(t0[0] == '}');
        lemma_skip_ws_nonws(t0);
        assert(t0.skip(1) =~= e);
        assert(m =~= Seq::<(Seq<char>, EntryModel)>::empty());
    } else {
        let m1 = m.skip(1);
        let p = spec_ser_pair(m[0]);
        let b = spec_ser_pairs_rest(m1);
        let s1 = b + seq!['}'] + e;
        assert(s1 =~= b + seq!['}']);
        let t0 = p + s1;
        assert(s == seq!['{'] + p + b + seq!['}']);
        vstd::seq_lib::lemma_concat_associative(seq!['{'] + p, b, seq!['}']);
        vstd::seq_lib::lemma_concat_associative(seq!['{'], p, b + seq!['}']);
        assert(s == seq!['{'] + (p + (b + seq!['}'])));
        assert(p + (b + seq!['}']) == t0);
        lemma_expect_of('{', t0);
        assert(t0[0] == '"');
        lemma_skip_ws_nonws(t0);
        lemma_parse_pair_of_ser(m[0], s1);
        lemma_parse_rest_of_ser(m1, e);
        assert(seq![m[0]] + m1 =~= m);
    }
}

/// Folding the members of a store with ascending keys rebuilds that store.
proof fn lemma_build_of_sorted(m: StoreModel, i: int)
    requires
        sorted(m),
        0 <= i <= m.len(),
    ensures
        spec_build(m.skip(i), m.take(i)) == Some(m),
    decreases m.len() - i,
{
    if i == m.len() {
        assert(m.skip(i) =~= Seq::<(Seq<char>, EntryModel)>::empty());
        assert(m.take(i) =~= m);
    } else {
        let acc = m.take(i);
        assert(m.skip(i)[0] == m[i]);
        crate::store::lemma_spec_get_none_iff(acc, m[i].0);
        assert forall|j: int| 0 <= j < acc.len() implies acc[j].0 != m[i].0 by {
            assert(acc[j] == m[j]);
            assert(lex_lt(m[j].0, m[i].0));
            crate::order::lemma_lex_irrefl(m[i].0);
        }
        assert forall|j: int| 0 <= j < i implies lex_lt(acc[j].0, m[i].0) by {
            assert(acc[j] == m[j]);
        }
        crate::store::lemma_spec_update_decomp(acc, m[i].0, m[i].1, i);
        assert(spec_update(acc, m[i].0, m[i].1) =~= m.take(i + 1)) by {
            assert(acc.take(i) =~= acc);
            assert(acc.skip(i) =~= Seq::<(Seq<char>, EntryModel)>::empty());
        }
        lemma_build_of_sorted(m, i + 1);
        assert(m.skip(i).skip(1) =~= m.skip(i + 1));
    }
}

/// Round trip: parsing a store's rendering yields that store again, for
/// every store whose keys are ascending — that is, for every store this
/// module can render.
pub proof fn lemma_serialize_deserialize_roundtrip(m: StoreModel)
    requires
        sorted(m),
    ensures
        spec_deserialize(spec_serialize(m)) == Some(m),
{
    lemma_parse_store_of_ser(m);
    lemma_skip_ws_nonws(Seq::<char>::empty());
    lemma_build_of_sorted(m, 0);
    assert(m.skip(0) =~= m);
    assert(m.take(0) =~= Seq::<(Seq<char>, EntryModel)>::empty());
}

/// The store's text encoding, by the functions of this module.
pub trait EntriesStuff: Sized {
    /// Renders the value as text.
    fn serialize(&self) -> String;

    /// Parses a value from text.
    fn deserialize(json: &str) -> Result<Self, ParseError>;
}

impl EntriesStuff for EntryStore {
    fn serialize(&self) -> String {
        EntryStore::serialize(self)
    }

    fn deserialize(json: &str) -> Result<EntryStore, ParseError> {
        EntryStore::deserialize(json)
    }
}

/// Appending one more character escapes it after the rest.
proof fn lemma_escape_push(s: Seq<char>, c: char)
    ensures
        spec_escape(s.push(c)) == spec_escape(s) + spec_escape_char(c),
    decreases s.len(),
{
    if s.len() == 0 {
        assert(s.push(c)[0] == c);
        assert(s =~= Seq::<char>::empty());
        assert(s.push(c).skip(1) =~= Seq::<char>::empty());
        assert(spec_escape(Seq::<char>::empty()) == Seq::<char>::empty());
        assert(spec_escape(s.push(c)) =~= spec_escape(s) + spec_escape_char(c));
    } else {
        lemma_escape_push(s.skip(1), c);
        assert(s.push(c)[0] == s[0]);
        assert(s.push(c).skip(1) =~= s.skip(1).push(c));
        assert(spec_escape(s.push(c)) == spec_escape_char(s[0]) + spec_escape(s.push(c).skip(1)));
        assert(spec_escape(s.push(c).skip(1)) == spec_escape(s.skip(1)) + spec_escape_char(c));
        assert(spec_escape(s.push(c)) =~= spec_escape(s) + spec_escape_char(c));
    }
}

/// The hexadecimal digit of a value below sixteen.
pub(crate) fn hex_digit(v: u32) -> (c: char)
    requires
        v < 16,
    ensures
        c == spec_hex_digit(v as int),
{
    if v == 0 {
        '0'
    } else if v == 1 {
        '1'
    } else if v == 2 {
        '2'
    } else if v == 3 {
        '3'
    } else if v == 4 {
        '4'
    } else if v == 5 {
        '5'
    } else if v == 6 {
        '6'
    } else if v == 7 {
        '7'
    } else if v == 8 {
        '8'
    } else if v == 9 {
        '9'
    } else if v == 10 {
        'a'
    } else if v == 11 {
        'b'
    } else if v == 12 {
        'c'
    } else if v == 13 {
        'd'
    } else if v == 14 {
        'e'
    } else {
        'f'
    }
}

/// Writes one character of a quoted string, escaped as the encoding asks.
fn push_escaped(out: &mut String, c: char)
    ensures
        final(out)@ == old(out)@ + spec_escape_char(c),
{
    if c == '"' {
        push_char(out, '\\');
        push_char(out, '"');
        assert(out@ =~= old(out)@ + spec_escape_char(c));
    } else if c == '\\' {
        push_char(out, '\\');
        push_char(out, '\\');
        assert(out@ =~= old(out)@ + spec_escape_char(c));
    } else if (c as u32) < 0x20 {
        push_char(out, '\\');
        push_char(out, 'u');
        push_char(out, '0');
        push_char(out, '0');
        push_char(out, hex_digit((c as u32) / 16));
        push_char(out, hex_digit((c as u32) % 16));
        assert(out@ =~= old(out)@ + spec_escape_char(c));
    } else {
        push_char(out, c);
        assert(out@ =~= old(out)@ + spec_escape_char(c));
    }
}

/// Writes a string as a quoted, escaped JSON string.
fn push_quoted(out: &mut String, s: &str)
    ensures
        final(out)@ == old(out)@ + spec_quote(s@),
{
    push_char(out, '"');
    let n = s.unicode_len();
    let mut i: usize = 0;
    proof {
        assert(s@.take(0) =~= Seq::empty());
        assert(out@ =~= old(out)@ + seq!['"'] + spec_escape(s@.take(0)));
    }
    while i < n
        invariant
            0 <= i <= n,
            n == s@.len(),
            out@ == old(out)@ + seq!['"'] + spec_escape(s@.take(i as int)),
        decreases n - i,
    {
        let c = s.get_char(i);
        push_escaped(out, c);
        proof {
            lemma_escape_push(s@.take(i as int), c);
            assert(s@.take(i as int).push(c) =~= s@.take(i as int + 1));
        }
        i = i + 1;
    }
    push_char(out, '"');
    proof {
        assert(s@.take(n as int) =~= s@);
        assert(out@ =~= old(out)@ + spec_quote(s@));
    }
}

/// Writes one `"field":"value"` member.
fn push_field(out: &mut String, fname: &str, v: &str)
    ensures
        final(out)@ == old(out)@ + spec_ser_field(fname@, v@),
{
    push_quoted(out, fname);
    push_char(out, ':');
    push_quoted(out, v);
    assert(out@ =~= old(out)@ + spec_ser_field(fname@, v@));
}

/// Writes an entry as an object with the four fields in canonical order.
fn push_entry(out: &mut String, e: &Entry)
    ensures
        final(out)@ == old(out)@ + spec_ser_entry(e@),
{
    proof {
        reveal_strlit("name");
        reveal_strlit("username");
        reveal_strlit("password");
        reveal_strlit("notes");
        assert("name"@ =~= name_key());
        assert("username"@ =~= username_key());
        assert("password"@ =~= password_key());
        assert("notes"@ =~= notes_key());
    }
    push_char(out, '{');
    push_field(out, "name", e.name.as_str());
    push_char(out, ',');
    push_field(out, "username", e.username.as_str());
    push_char(out, ',');
    push_field(out, "password", e.password.as_str());
    push_char(out, ',');
    push_field(out, "notes", e.notes.as_str());
    push_char(out, '}');
    assert(out@ =~= old(out)@ + spec_ser_entry(e@));
}

impl EntryStore {
    /// Renders the store in its canonical encoding: keys in ascending
    /// order, entry fields in canonical order, no extra whitespace.
    pub fn serialize(&self) -> (r: String)
        ensures
            r@ == spec_serialize(self@),
    {
        let mut out = String::new();
        push_char(&mut out, '{');
        let n = self.len();
        if n > 0 {
            let p = self.pair(0);
            push_quoted(&mut out, p.0.as_str());
            push_char(&mut out, ':');
            push_entry(&mut out, &p.1);
            assert(out@ =~= seq!['{'] + spec_ser_pair(self@[0]));
            self.push_pairs_rest(&mut out, 1);
        }
        push_char(&mut out, '}');
        proof {
            if self@.len() == 0 {
                assert(out@ =~= seq!['{', '}']);
            } else {
                assert(out@ =~= spec_serialize(self@));
            }
        }
        out
    }

    /// Writes the members at positions `i` and after, each preceded by a
    /// comma.
    #[verifier::rlimit(50)]
    fn push_pairs_rest(&self, out: &mut String, i: usize)
        requires
            1 <= i <= self@.len(),
        ensures
            final(out)@ == old(out)@ + spec_ser_pairs_rest(self@.skip(i as int)),
        decreases self@.len() - i,
    {
        if i == self.len() {
            proof {
                assert(self@.skip(i as int) =~= Seq::<(Seq<char>, EntryModel)>::empty());
                assert(out@ =~= old(out)@ + spec_ser_pairs_rest(self@.skip(i as int)));
            }
            return ;
        }
        push_char(out, ',');
        let p = self.pair(i);
        push_quoted(out, p.0.as_str());
        push_char(out, ':');
        push_entry(out, &p.1);
        self.push_pairs_rest(out, i + 1);
        proof {
            assert(self@.skip(i as int)[0] == self@[i as int]);
            assert(self@.skip(i as int).skip(1) =~= self@.skip(i as int + 1));
            assert(spec_ser_pairs_rest(self@.skip(i as int)) == seq![','] + spec_ser_pair(
                self@[i as int],
            ) + spec_ser_pairs_rest(self@.skip(i as int + 1)));
            assert(out@ =~= old(out)@ + spec_ser_pairs_rest(self@.skip(i as int)));
        }
    }
}

} // verus!
