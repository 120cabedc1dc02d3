//! Name-or-index resolution: a user-supplied identifier names an entry
//! either exactly, or as a 1-based position in the ascending key order.

use vstd::prelude::*;

use crate::store::spec_get;
use crate::store::EntryStore;
use crate::store::StoreModel;

verus! {

/// An identifier did not resolve to an entry.
#[derive(Debug, Clone, Copy, PartialEq, Eq)]
pub enum ResolutionError {
    /// The identifier is no key and no number.
    NotFoundByName,
    /// The identifier is a number with no entry at that position.
    NotFoundByIndex,
}

/// A decimal digit.
pub open spec fn is_digit(c: char) -> bool {
    0x30 <= (c as u32) && (c as u32) <= 0x39
}

/// Every character is a decimal digit.
pub open spec fn all_digits(s: Seq<char>) -> bool {
    forall|i: int| 0 <= i < s.len() ==> is_digit(s[i])
}

/// The number the digits spell, most significant first.
pub open spec fn digits_val(s: Seq<char>) -> int
    decreases s.len(),
{
    if s.len() == 0 {
        0
    } else {
        digits_val(s.take(s.len() - 1)) * 10 + ((s.last() as u32) - 0x30)
    }
}

/// What an identifier resolves to: its own name if that is a key, else the
/// key at the 1-based position it spells, else an error naming which way
/// it missed.
pub open spec fn spec_resolve(m: StoreModel, ident: Seq<char>) -> Result<
    Seq<char>,
    ResolutionError,
> {
    if spec_get(m, ident) is Some {
        Ok(ident)
    } else if ident.len() > 0 && all_digits(ident) {
        let n = digits_val(ident);
        if 1 <= n && n <= m.len() {
            Ok(m[n - 1].0)
        } else {
            Err(ResolutionError::NotFoundByIndex)
        }
    } else {
        Err(ResolutionError::NotFoundByName)
    }
}

/// Resolves an identifier against a store: an exact key match wins; else a
/// string of digits names the entry at that 1-based position in key order;
/// zero and positions past the end fail.
pub fn resolve(ident: &str, store: &EntryStore) -> (r: Result<String, ResolutionError>)
    ensures
        match r {
            Ok(name) => spec_resolve(store@, ident@) == Ok::<Seq<char>, ResolutionError>(name@),
            Err(e) => spec_resolve(store@, ident@) == Err::<Seq<char>, ResolutionError>(e),
        },
{
    if store.contains_key(ident) {
        return Ok(String::from_str(ident));
    }
    let n_chars = ident.unicode_len();
    if n_chars == 0 {
        return Err(ResolutionError::NotFoundByName);
    }
    let mut val: usize = 0;
    let mut over = false;
    let mut i: usize = 0;
    proof {
        assert(ident@.take(0) =~= Seq::<char>::empty());
    }
    while i < n_chars
        invariant
            0 <= i <= n_chars,
            n_chars == ident@.len(),
            spec_get(store@, ident@) is None,
            all_digits(ident@.take(i as int)),
            !over ==> val == digits_val(ident@.take(i as int)),
            over ==> digits_val(ident@.take(i as int)) > usize::MAX,
        decreases n_chars - i,
    {
        let c = ident.get_char(i);
        let cu = c as u32;
        if cu < 0x30 || cu > 0x39 {
            proof {
                assert(!is_digit(ident@[i as int]));
                assert(!all_digits(ident@));
            }
            return Err(ResolutionError::NotFoundByName);
        }
        let d = (cu - 0x30) as usize;
        proof {
            assert(ident@.take(i as int + 1).take(i as int) =~= ident@.take(i as int));
            assert(ident@.take(i as int + 1).last() == ident@[i as int]);
        }
        if over {
        } else if val > (usize::MAX - d) / 10 {
            proof {
                let q = (usize::MAX - d) as int / 10;
                assert(q * 10 + (usize::MAX - d) as int % 10 == usize::MAX - d);
                assert(val >= q + 1);
                assert(val * 10 >= (q + 1) * 10);
                assert(val * 10 + d > usize::MAX);
            }
            over = true;
        } else {
            val = val * 10 + d;
        }
        i = i + 1;
    }
    proof {
        assert(ident@.take(n_chars as int) =~= ident@);
    }
    let len = store.len();
    if over {
        return Err(ResolutionError::NotFoundByIndex);
    }
    if val == 0 || val > len {
        return Err(ResolutionError::NotFoundByIndex);
    }
    Ok(store.pair(val - 1).0.clone())
}

} // verus!
