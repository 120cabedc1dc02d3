//! The decisions behind each command-line flow, as pure functions: what to
//! list, what a prompt answer means, which entry a flow touches and what
//! the store becomes. Reading lines, printing, and the file itself stay
//! with the caller.

use vstd::prelude::*;

use crate::codec::spec_deserialize;
use crate::codec::spec_hex_digit;
use crate::codec::str_to_chars;
use crate::codec::hex_digit;
use crate::codec::push_char;
use crate::codec::ParseError;
use crate::order::str_lex_cmp;
use crate::store::spec_get;
use crate::store::spec_remove;
use crate::store::spec_update;
use crate::store::EntryStore;
use crate::store::StoreModel;
use crate::Entry;
use crate::EntryModel;

verus! {

/// A character of the Unicode `White_Space` class, as line trimming drops
/// at either end.
pub open spec fn is_white(c: char) -> bool {
    let u = c as u32;
    (0x09 <= u && u <= 0x0D) || u == 0x20 || u == 0x85 || u == 0xA0 || u == 0x1680 || (0x2000 <= u
        && u <= 0x200A) || u == 0x2028 || u == 0x2029 || u == 0x202F || u == 0x205F || u == 0x3000
}

/// The input with leading white space dropped.
pub open spec fn drop_leading(s: Seq<char>) -> Seq<char>
    decreases s.len(),
{
    if s.len() > 0 && is_white(s[0]) {
        drop_leading(s.skip(1))
    } else {
        s
    }
}

/// The input with trailing white space dropped.
pub open spec fn drop_trailing(s: Seq<char>) -> Seq<char>
    decreases s.len(),
{
    if s.len() > 0 && is_white(s.last()) {
        drop_trailing(s.take(s.len() - 1))
    } else {
        s
    }
}

/// The input with white space dropped at both ends.
pub open spec fn spec_trim(s: Seq<char>) -> Seq<char> {
    drop_trailing(drop_leading(s))
}

fn is_white_char(c: char) -> (r: bool)
    ensures
        r == is_white(c),
{
    let u = c as u32;
    (0x09 <= u && u <= 0x0D) || u == 0x20 || u == 0x85 || u == 0xA0 || u == 0x1680 || (0x2000 <= u
        && u <= 0x200A) || u == 0x2028 || u == 0x2029 || u == 0x202F || u == 0x205F || u == 0x3000
}

/// What remains of one read line once prompting and reading are done:
/// the line with white space trimmed at both ends.
pub fn readline(line: &str) -> (r: String)
    ensures
        r@ == spec_trim(line@),
{
    let chars = str_to_chars(line);
    let n = chars.len();
    let ghost s = line@;
    let mut a: usize = 0;
    proof {
        assert(s.skip(0) =~= s);
    }
    while a < n && is_white_char(chars[a])
        invariant
            0 <= a <= n,
            n == s.len(),
            chars@ == s,
            drop_leading(s.skip(a as int)) == drop_leading(s),
        decreases n - a,
    {
        proof {
            assert(s.skip(a as int)[0] == s[a as int]);
            assert(s.skip(a as int).skip(1) =~= s.skip(a as int + 1));
        }
        a = a + 1;
    }
    proof {
        if a == n {
            assert(s.skip(a as int) =~= Seq::<char>::empty());
        } else {
            assert(s.skip(a as int)[0] == s[a as int]);
        }
        assert(drop_leading(s) == s.skip(a as int));
    }
    let ghost t = s.skip(a as int);
    let mut b: usize = n;
    proof {
        assert(t.take(n - a) =~= t);
    }
    while b > a && is_white_char(chars[b - 1])
        invariant
            a <= b <= n,
            n == s.len(),
            chars@ == s,
            t == s.skip(a as int),
            drop_trailing(t.take(b - a)) == drop_trailing(t),
        decreases b,
    {
        proof {
            assert(t.take(b - a).last() == t[b - a - 1]);
            assert(t[b - a - 1] == s[b as int - 1]);
            assert(t.take(b - a).take(b - a - 1) =~= t.take(b - a - 1));
        }
        b = b - 1;
    }
    proof {
        if b == a {
            assert(t.take(0) =~= Seq::<char>::empty());
        } else {
            assert(t.take(b - a).last() == t[b - a - 1]);
            assert(t[b - a - 1] == s[b as int - 1]);
        }
        assert(drop_trailing(t.take(b - a)) == t.take(b - a));
    }
    let mut out = String::new();
    let mut i: usize = a;
    proof {
        assert(out@ =~= t.take(0));
    }
    while i < b
        invariant
            a <= i <= b <= n,
            n == s.len(),
            chars@ == s,
            t == s.skip(a as int),
            out@ == t.take(i - a),
        decreases b - i,
    {
        push_char(&mut out, chars[i]);
        proof {
            assert(t[i - a] == s[i as int]);
            assert(t.take(i - a).push(t[i - a]) =~= t.take(i + 1 - a));
        }
        i = i + 1;
    }
    out
}

/// Opening failed: the user declined to create the file, or its content
/// did not parse.
#[derive(Debug, Clone, Copy, PartialEq, Eq)]
pub enum OpenError {
    /// The file was absent and the answer was not `y`.
    Declined,
    /// The file's content is no well-formed encoding of a store.
    Parse(ParseError),
}

/// What opening a store file means, once the file's content — or its
/// absence, with the user's answer to the creation prompt — is in hand:
/// content parses to the store it encodes; an absent file and the answer
/// `y` give a fresh empty store, which the caller then persists; any other
/// answer declines.
pub fn open(existing: Option<&str>, answer: &str) -> (r: Result<EntryStore, OpenError>)
    ensures
        match existing {
            Some(text) => match r {
                Ok(st) => st.wf() && spec_deserialize(text@) == Some(st@),
                Err(e) => e == OpenError::Parse(ParseError) && spec_deserialize(text@) is None,
            },
            None => match r {
                Ok(st) => answer@ == "y"@ && st.wf() && st@ == Seq::<
                    (Seq<char>, EntryModel),
                >::empty(),
                Err(e) => answer@ != "y"@ && e == OpenError::Declined,
            },
        },
{
    match existing {
        Some(text) => match EntryStore::deserialize(text) {
            Ok(st) => Ok(st),
            Err(pe) => Err(OpenError::Parse(pe)),
        },
        None => {
            if str_lex_cmp(answer, "y") == 0 {
                Ok(EntryStore::new())
            } else {
                Err(OpenError::Declined)
            }
        },
    }
}

/// The decimal digits of a number, most significant first.
pub open spec fn spec_render_num(n: nat) -> Seq<char>
    decreases n,
{
    if n < 10 {
        seq![spec_hex_digit(n as int)]
    } else {
        spec_render_num(n / 10) + seq![spec_hex_digit((n % 10) as int)]
    }
}

/// One numbered line per entry: its 1-based position, `: `, its key, and a
/// line break.
pub open spec fn spec_list_from(m: StoreModel, i: int) -> Seq<char>
    decreases m.len() - i,
{
    if i < 0 || i >= m.len() {
        Seq::empty()
    } else {
        spec_render_num((i + 1) as nat) + seq![':', ' '] + m[i].0 + seq!['\n'] + spec_list_from(
            m,
            i + 1,
        )
    }
}

/// The listing of a store.
pub open spec fn spec_list(m: StoreModel) -> Seq<char> {
    spec_list_from(m, 0)
}

/// Writes a number in decimal.
fn push_num(out: &mut String, n: usize)
    ensures
        final(out)@ == old(out)@ + spec_render_num(n as nat),
    decreases n,
{
    if n < 10 {
        push_char(out, hex_digit(n as u32));
        assert(out@ =~= old(out)@ + spec_render_num(n as nat));
    } else {
        push_num(out, n / 10);
        push_char(out, hex_digit((n % 10) as u32));
        assert(out@ =~= old(out)@ + spec_render_num(n as nat));
    }
}

/// Writes the listing lines for positions `i` and after.
fn push_list_from(store: &EntryStore, i: usize, out: &mut String)
    requires
        i <= store@.len(),
    ensures
        final(out)@ == old(out)@ + spec_list_from(store@, i as int),
    decreases store@.len() - i,
{
    if i == store.len() {
        assert(out@ =~= old(out)@ + spec_list_from(store@, i as int));
        return ;
    }
    push_num(out, i + 1);
    push_char(out, ':');
    push_char(out, ' ');
    out.append(store.pair(i).0.as_str());
    push_char(out, '\n');
    push_list_from(store, i + 1, out);
    assert(out@ =~= old(out)@ + spec_list_from(store@, i as int));
}

/// The text the list command prints: one line per entry, `N: key`, with
/// `N` the 1-based position in ascending key order.
pub fn list(store: &EntryStore) -> (r: String)
    ensures
        r@ == spec_list(store@),
{
    let mut out = String::new();
    push_list_from(store, 0, &mut out);
    out
}

/// Adding failed; the boundary prompts again.
#[derive(Debug, Clone, Copy, PartialEq, Eq)]
pub enum AddError {
    /// An entry with the chosen name exists; adding never overwrites.
    DuplicateName,
    /// The chosen password is empty.
    EmptyPassword,
}

/// One attempt of the add flow: a new entry from the four prompted values,
/// rejected if the name is taken or the password empty.
pub fn add(store: &EntryStore, name: String, username: String, password: String, notes: String) -> (r:
    Result<EntryStore, AddError>)
    requires
        store.wf(),
    ensures
        match r {
            Ok(st) => spec_get(store@, name@) is None && password@.len() != 0 && st.wf() && st@
                == spec_update(
                store@,
                name@,
                EntryModel { name: name@, username: username@, password: password@, notes: notes@ },
            ),
            Err(e) => (e == AddError::DuplicateName <==> spec_get(store@, name@) is Some) && (e
                == AddError::EmptyPassword <==> (spec_get(store@, name@) is None && password@.len()
                == 0)),
        },
{
    if store.contains_key(name.as_str()) {
        return Err(AddError::DuplicateName);
    }
    if password.as_str().is_empty() {
        return Err(AddError::EmptyPassword);
    }
    let entry = Entry {
        name: name.clone(),
        username: username,
        password: password,
        notes: notes,
    };
    let st = store.update(name, entry);
    Ok(st)
}

/// What the show command prints for an entry.
pub open spec fn spec_show(e: EntryModel) -> Seq<char> {
    "Name: "@ + e.name + "\n"@ + "Username: "@ + e.username + "\n"@ + "Password: "@ + e.password
        + "\n"@ + "Notes: "@ + e.notes + "\n"@
}

/// The text the show command prints for `name`, if the store holds it.
pub fn show(store: &EntryStore, name: &str) -> (r: Option<String>)
    ensures
        match r {
            Some(text) => spec_get(store@, name@) is Some && text@ == spec_show(
                spec_get(store@, name@)->Some_0,
            ),
            None => spec_get(store@, name@) is None,
        },
{
    match store.get(name) {
        None => None,
        Some(e) => {
            let mut out = String::new();
            out.append("Name: ");
            out.append(e.name.as_str());
            out.append("\n");
            out.append("Username: ");
            out.append(e.username.as_str());
            out.append("\n");
            out.append("Password: ");
            out.append(e.password.as_str());
            out.append("\n");
            out.append("Notes: ");
            out.append(e.notes.as_str());
            out.append("\n");
            assert(out@ =~= spec_show(spec_get(store@, name@)->Some_0));
            Some(out)
        },
    }
}

/// There is no entry under the given name.
#[derive(Debug, Clone, Copy, PartialEq, Eq)]
pub struct EditError;

/// A prompted value, where an empty answer keeps the old value.
pub open spec fn pick(given: Seq<char>, older: Seq<char>) -> Seq<char> {
    if given.len() == 0 {
        older
    } else {
        given
    }
}

/// The edit flow: the entry under `name` is rebuilt from the four prompted
/// values, an empty answer keeping the old value; the entry leaves the
/// store under the old entry's own name and returns under the new one.
pub fn edit(
    store: &EntryStore,
    name: &str,
    new_name: String,
    new_username: String,
    new_password: String,
    new_notes: String,
) -> (r: Result<EntryStore, EditError>)
    requires
        store.wf(),
    ensures
        match r {
            Ok(st) => spec_get(store@, name@) is Some && st.wf() && st@ == ({
                let older = spec_get(store@, name@)->Some_0;
                spec_update(
                    spec_remove(store@, older.name),
                    pick(new_name@, older.name),
                    EntryModel {
                        name: pick(new_name@, older.name),
                        username: pick(new_username@, older.username),
                        password: pick(new_password@, older.password),
                        notes: pick(new_notes@, older.notes),
                    },
                )
            }),
            Err(_) => spec_get(store@, name@) is None,
        },
{
    let older = match store.get(name) {
        None => {
            return Err(EditError);
        },
        Some(e) => e,
    };
    let nm = if new_name.as_str().is_empty() {
        older.name.clone()
    } else {
        new_name
    };
    let us = if new_username.as_str().is_empty() {
        older.username.clone()
    } else {
        new_username
    };
    let pw = if new_password.as_str().is_empty() {
        older.password.clone()
    } else {
        new_password
    };
    let nt = if new_notes.as_str().is_empty() {
        older.notes.clone()
    } else {
        new_notes
    };
    let removed = store.without(older.name.as_str());
    let key = nm.clone();
    let st = removed.update(key, Entry { name: nm, username: us, password: pw, notes: nt });
    Ok(st)
}

/// How the delete flow left the store.
#[derive(Debug, Clone, Copy, PartialEq, Eq)]
pub enum DeleteOutcome {
    /// The entry is gone.
    Deleted,
    /// The answer was not `y`; nothing changed.
    Kept,
    /// No entry has that name; nothing changed.
    NoSuchEntry,
}

/// The delete flow: the entry under `name` leaves the store only when it
/// exists and the confirmation answer is `y`.
pub fn delete(store: &EntryStore, name: &str, confirm: &str) -> (r: (EntryStore, DeleteOutcome))
    requires
        store.wf(),
    ensures
        r.0.wf(),
        spec_get(store@, name@) is None ==> r.1 == DeleteOutcome::NoSuchEntry && r.0@ == store@,
        spec_get(store@, name@) is Some && confirm@ == "y"@ ==> r.1 == DeleteOutcome::Deleted
            && r.0@ == spec_remove(store@, name@),
        spec_get(store@, name@) is Some && confirm@ != "y"@ ==> r.1 == DeleteOutcome::Kept && r.0@
            == store@,
{
    if !store.contains_key(name) {
        return (store.clone(), DeleteOutcome::NoSuchEntry);
    }
    if str_lex_cmp(confirm, "y") == 0 {
        (store.without(name), DeleteOutcome::Deleted)
    } else {
        (store.clone(), DeleteOutcome::Kept)
    }
}

} // verus!
