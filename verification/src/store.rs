//! The persistent entry store: an immutable association of unique names to
//! entries, kept in ascending lexicographic key order.
//!
//! Every mutating operation returns a new store and leaves the receiver
//! untouched; a holder of a prior value never observes a change.

use vstd::prelude::*;

use crate::order::lemma_lex_asym;
use crate::order::lemma_lex_connex;
use crate::order::lemma_lex_irrefl;
use crate::order::lemma_lex_trans;
use crate::order::lex_lt;
use crate::order::str_lex_cmp;
use crate::Entry;
use crate::EntryModel;

verus! {

/// The mathematical value of an [`EntryStore`]: its key/entry pairs in
/// storage order.
pub type StoreModel = Seq<(Seq<char>, EntryModel)>;

/// Keys are strictly ascending, hence unique.
pub open spec fn sorted(m: StoreModel) -> bool {
    forall|i: int, j: int| 0 <= i < j < m.len() ==> lex_lt(m[i].0, m[j].0)
}

/// The entry stored under `k`, if any.
pub open spec fn spec_get(m: StoreModel, k: Seq<char>) -> Option<EntryModel>
    decreases m.len(),
{
    if m.len() == 0 {
        None
    } else if m[0].0 == k {
        Some(m[0].1)
    } else {
        spec_get(m.skip(1), k)
    }
}

/// `m` with `k` bound to `e`: replaces an existing binding of `k`, or
/// inserts one at its place in the key order.
pub open spec fn spec_update(m: StoreModel, k: Seq<char>, e: EntryModel) -> StoreModel
    decreases m.len(),
{
    if m.len() == 0 {
        seq![(k, e)]
    } else if lex_lt(k, m[0].0) {
        seq![(k, e)] + m
    } else if k == m[0].0 {
        seq![(k, e)] + m.skip(1)
    } else {
        seq![m[0]] + spec_update(m.skip(1), k, e)
    }
}

/// `m` with the first binding of `k` removed, if there is one.
pub open spec fn spec_remove(m: StoreModel, k: Seq<char>) -> StoreModel
    decreases m.len(),
{
    if m.len() == 0 {
        Seq::empty()
    } else if m[0].0 == k {
        m.skip(1)
    } else {
        seq![m[0]] + spec_remove(m.skip(1), k)
    }
}

/// There is no binding of `k` exactly when no pair carries the key `k`.
pub proof fn lemma_spec_get_none_iff(m: StoreModel, k: Seq<char>)
    ensures
        (spec_get(m, k) is None) <==> (forall|i: int| 0 <= i < m.len() ==> m[i].0 != k),
    decreases m.len(),
{
    if m.len() > 0 {
        lemma_spec_get_none_iff(m.skip(1), k);
        if spec_get(m, k) is None {
            assert forall|i: int| 0 <= i < m.len() implies m[i].0 != k by {
                if i > 0 {
                    assert(m.skip(1)[i - 1] == m[i]);
                }
            }
        } else {
            if m[0].0 != k {
                let w = choose|i: int| 0 <= i < m.skip(1).len() && m.skip(1)[i].0 == k;
                assert(m.skip(1)[w] == m[w + 1]);
            }
        }
    }
}

/// Where `spec_update` places the new pair, given the position `p` at which
/// the scan over the sorted pairs first reaches a key not below `k`.
pub proof fn lemma_spec_update_decomp(m: StoreModel, k: Seq<char>, e: EntryModel, p: int)
    requires
        sorted(m),
        0 <= p <= m.len(),
        forall|i: int| 0 <= i < p ==> lex_lt(m[i].0, k),
        p < m.len() ==> !lex_lt(m[p].0, k),
    ensures
        p < m.len() && m[p].0 == k ==> spec_update(m, k, e) =~= m.take(p) + seq![(k, e)]
            + m.skip(p + 1),
        !(p < m.len() && m[p].0 == k) ==> spec_update(m, k, e) =~= m.take(p) + seq![(k, e)]
            + m.skip(p),
    decreases p,
{
    lemma_lex_irrefl(k);
    if p == 0 {
        if m.len() > 0 {
            lemma_lex_connex(k, m[0].0);
        }
    } else {
        lemma_lex_asym(m[0].0, k);
        let m1 = m.skip(1);
        assert(forall|i: int| 0 <= i < m1.len() ==> m1[i] == m[i + 1]);
        lemma_spec_update_decomp(m1, k, e, p - 1);
        if p < m.len() && m[p].0 == k {
            assert(spec_update(m, k, e) =~= m.take(p) + seq![(k, e)] + m.skip(p + 1));
        } else {
            assert(spec_update(m, k, e) =~= m.take(p) + seq![(k, e)] + m.skip(p));
        }
    }
}

/// Updating keeps the keys strictly ascending.
pub proof fn lemma_spec_update_sorted(m: StoreModel, k: Seq<char>, e: EntryModel, p: int)
    requires
        sorted(m),
        0 <= p <= m.len(),
        forall|i: int| 0 <= i < p ==> lex_lt(m[i].0, k),
        p < m.len() ==> !lex_lt(m[p].0, k),
    ensures
        sorted(spec_update(m, k, e)),
{
    lemma_spec_update_decomp(m, k, e, p);
    lemma_lex_irrefl(k);
    if p < m.len() && m[p].0 == k {
        let r = m.take(p) + seq![(k, e)] + m.skip(p + 1);
        assert forall|i: int, j: int| 0 <= i < j < r.len() implies lex_lt(r[i].0, r[j].0) by {
            if i < p {
                assert(r[i] == m[i]);
            } else if i == p {
                assert(r[i].0 == k && k == m[p].0);
            } else {
                assert(r[i] == m[i]);
            }
            if j < p {
                assert(r[j] == m[j]);
            } else if j == p {
                assert(r[j].0 == k && k == m[p].0);
            } else {
                assert(r[j] == m[j]);
            }
        }
    } else {
        let r = m.take(p) + seq![(k, e)] + m.skip(p);
        if p < m.len() {
            lemma_lex_connex(k, m[p].0);
        }
        assert forall|i: int, j: int| 0 <= i < j < r.len() implies lex_lt(r[i].0, r[j].0) by {
            if i < p {
                assert(r[i] == m[i]);
            } else if i > p {
                assert(r[i] == m[i - 1]);
            }
            if j < p {
                assert(r[j] == m[j]);
            } else if j > p {
                assert(r[j] == m[j - 1]);
            }
            if i == p && j > p {
                lemma_lex_trans(k, m[p].0, m[j - 1].0);
            }
            if i < p && j == p {
                assert(lex_lt(m[i].0, k));
            }
        }
    }
}

/// Where `spec_remove` takes a pair out, given the position `p` of the
/// first pair carrying `k` (or `p == m.len()` when no pair does).
pub proof fn lemma_spec_remove_decomp(m: StoreModel, k: Seq<char>, p: int)
    requires
        0 <= p <= m.len(),
        forall|i: int| 0 <= i < p ==> m[i].0 != k,
        p < m.len() ==> m[p].0 == k,
    ensures
        p < m.len() ==> spec_remove(m, k) =~= m.take(p) + m.skip(p + 1),
        p == m.len() ==> spec_remove(m, k) =~= m,
    decreases p,
{
    if p == 0 {
        if m.len() == 0 {
            assert(spec_remove(m, k) =~= m);
        }
    } else {
        let m1 = m.skip(1);
        assert(forall|i: int| 0 <= i < m1.len() ==> m1[i] == m[i + 1]);
        lemma_spec_remove_decomp(m1, k, p - 1);
        if p < m.len() {
            assert(spec_remove(m, k) =~= m.take(p) + m.skip(p + 1));
        } else {
            assert(spec_remove(m, k) =~= m);
        }
    }
}

/// Removing keeps the keys strictly ascending.
pub proof fn lemma_spec_remove_sorted(m: StoreModel, k: Seq<char>, p: int)
    requires
        sorted(m),
        0 <= p <= m.len(),
        forall|i: int| 0 <= i < p ==> m[i].0 != k,
        p < m.len() ==> m[p].0 == k,
    ensures
        sorted(spec_remove(m, k)),
{
    lemma_spec_remove_decomp(m, k, p);
    if p < m.len() {
        let r = m.take(p) + m.skip(p + 1);
        assert forall|i: int, j: int| 0 <= i < j < r.len() implies lex_lt(r[i].0, r[j].0) by {
            if i >= p {
                assert(r[i] == m[i + 1]);
            } else {
                assert(r[i] == m[i]);
            }
            if j >= p {
                assert(r[j] == m[j + 1]);
            } else {
                assert(r[j] == m[j]);
            }
        }
    }
}

/// Updating a key and then looking it up yields the updated entry; every
/// other key is bound exactly as before the update.
pub proof fn lemma_get_after_update(m: StoreModel, k: Seq<char>, e: EntryModel)
    ensures
        spec_get(spec_update(m, k, e), k) == Some(e),
        forall|k2: Seq<char>|
            k2 != k ==> spec_get(spec_update(m, k, e), k2) == spec_get(m, k2),
    decreases m.len(),
{
    let r = spec_update(m, k, e);
    if m.len() == 0 {
        assert(r[0] == (k, e));
        assert(r.skip(1) =~= Seq::<(Seq<char>, EntryModel)>::empty());
        assert forall|k2: Seq<char>| k2 != k implies spec_get(r, k2) == spec_get(m, k2) by {
            assert(spec_get(r, k2) == spec_get(r.skip(1), k2));
        }
    } else if lex_lt(k, m[0].0) {
        assert(r[0] == (k, e));
        assert(r.skip(1) =~= m);
        assert forall|k2: Seq<char>| k2 != k implies spec_get(r, k2) == spec_get(m, k2) by {
            assert(spec_get(r, k2) == spec_get(r.skip(1), k2));
        }
    } else if k == m[0].0 {
        assert(r[0] == (k, e));
        assert(r.skip(1) =~= m.skip(1));
        assert forall|k2: Seq<char>| k2 != k implies spec_get(r, k2) == spec_get(m, k2) by {
            assert(spec_get(r, k2) == spec_get(r.skip(1), k2));
            assert(spec_get(m, k2) == spec_get(m.skip(1), k2));
        }
    } else {
        lemma_get_after_update(m.skip(1), k, e);
        lemma_lex_irrefl(k);
        assert(m[0].0 != k);
        assert(r[0] == m[0]);
        assert(r.skip(1) =~= spec_update(m.skip(1), k, e));
        assert(spec_get(r, k) == spec_get(r.skip(1), k));
        assert forall|k2: Seq<char>| k2 != k implies spec_get(r, k2) == spec_get(m, k2) by {
            if k2 != m[0].0 {
                assert(spec_get(r, k2) == spec_get(r.skip(1), k2));
                assert(spec_get(m, k2) == spec_get(m.skip(1), k2));
            }
        }
    }
}

/// Updating a key twice with the same entry is the same as updating it
/// once.
pub proof fn lemma_update_idempotent(m: StoreModel, k: Seq<char>, e: EntryModel)
    requires
        sorted(m),
    ensures
        spec_update(spec_update(m, k, e), k, e) == spec_update(m, k, e),
    decreases m.len(),
{
    lemma_lex_irrefl(k);
    let r = spec_update(m, k, e);
    if m.len() == 0 {
        assert(r[0] == (k, e));
        assert(spec_update(r, k, e) =~= r);
    } else if lex_lt(k, m[0].0) {
        assert(r[0] == (k, e));
        assert(spec_update(r, k, e) =~= seq![(k, e)] + r.skip(1));
        assert(r.skip(1) =~= m);
        assert(spec_update(r, k, e) =~= r);
    } else if k == m[0].0 {
        assert(r[0] == (k, e));
        assert(spec_update(r, k, e) =~= seq![(k, e)] + r.skip(1));
        assert(spec_update(r, k, e) =~= r);
    } else {
        lemma_lex_connex(k, m[0].0);
        lemma_lex_asym(m[0].0, k);
        assert(sorted(m.skip(1))) by {
            assert(forall|i: int| 0 <= i < m.skip(1).len() ==> m.skip(1)[i] == m[i + 1]);
        }
        lemma_update_idempotent(m.skip(1), k, e);
        assert(r[0] == m[0]);
        assert(r.skip(1) =~= spec_update(m.skip(1), k, e));
        assert(spec_update(r, k, e) =~= seq![m[0]] + spec_update(r.skip(1), k, e));
        assert(spec_update(r, k, e) =~= r);
    }
}

/// Removing a key that was just inserted into a store not containing it
/// gives back the original store.
pub proof fn lemma_remove_after_update(m: StoreModel, k: Seq<char>, e: EntryModel)
    requires
        spec_get(m, k) is None,
    ensures
        spec_remove(spec_update(m, k, e), k) == m,
    decreases m.len(),
{
    let r = spec_update(m, k, e);
    if m.len() == 0 {
        assert(r[0] == (k, e));
        assert(spec_remove(r, k) =~= m);
    } else if lex_lt(k, m[0].0) {
        assert(r[0] == (k, e));
        assert(r.skip(1) =~= m);
        assert(spec_remove(r, k) =~= m);
    } else if k == m[0].0 {
        assert(false);
    } else {
        lemma_remove_after_update(m.skip(1), k, e);
        assert(r[0] == m[0]);
        assert(r.skip(1) =~= spec_update(m.skip(1), k, e));
        assert(spec_remove(r, k) =~= seq![m[0]] + spec_remove(r.skip(1), k));
        assert(spec_remove(r, k) =~= m);
    }
}

/// After removing a key from a store with unique keys, the key is absent.
pub proof fn lemma_get_after_remove(m: StoreModel, k: Seq<char>)
    requires
        sorted(m),
    ensures
        spec_get(spec_remove(m, k), k) is None,
    decreases m.len(),
{
    if m.len() > 0 {
        assert(sorted(m.skip(1))) by {
            assert(forall|i: int| 0 <= i < m.skip(1).len() ==> m.skip(1)[i] == m[i + 1]);
        }
        if m[0].0 == k {
            lemma_spec_get_none_iff(m.skip(1), k);
            assert forall|i: int| 0 <= i < m.skip(1).len() implies m.skip(1)[i].0 != k by {
                assert(m.skip(1)[i] == m[i + 1]);
                assert(lex_lt(m[0].0, m[i + 1].0));
                lemma_lex_irrefl(k);
            }
        } else {
            lemma_get_after_remove(m.skip(1), k);
            let r = spec_remove(m, k);
            assert(r[0] == m[0]);
            assert(r.skip(1) =~= spec_remove(m.skip(1), k));
        }
    }
}

/// An ordered, immutable collection of entries keyed by unique names.
#[derive(Debug)]
pub struct EntryStore {
    entries: Vec<(String, Entry)>,
}

impl View for EntryStore {
    type V = StoreModel;

    closed spec fn view(&self) -> StoreModel {
        Seq::new(self.entries@.len(), |i: int| (self.entries@[i].0@, self.entries@[i].1@))
    }
}

impl EntryStore {
    /// The store invariant: keys strictly ascending in lexicographic order.
    pub open spec fn wf(&self) -> bool {
        sorted(self@)
    }

    /// An empty store.
    pub fn new() -> (r: EntryStore)
        ensures
            r@ == Seq::<(Seq<char>, EntryModel)>::empty(),
            r.wf(),
    {
        let r = EntryStore { entries: Vec::new() };
        proof {
            assert(r@ =~= Seq::<(Seq<char>, EntryModel)>::empty());
        }
        r
    }

    /// How many entries the store holds.
    pub fn len(&self) -> (r: usize)
        ensures
            r == self@.len(),
    {
        self.entries.len()
    }

    /// The key/entry pair at position `i` of the storage order.
    pub(crate) fn pair(&self, i: usize) -> (r: &(String, Entry))
        requires
            i < self@.len(),
        ensures
            (r.0@, r.1@) == self@[i as int],
    {
        &self.entries[i]
    }

    /// The entry stored under `name`, if any. Read-only.
    pub fn get(&self, name: &str) -> (r: Option<&Entry>)
        ensures
            match r {
                Some(e) => spec_get(self@, name@) == Some(e@),
                None => spec_get(self@, name@) is None,
            },
    {
        let n = self.entries.len();
        let mut i: usize = 0;
        proof {
            assert(self@.skip(0) =~= self@);
        }
        while i < n
            invariant
                0 <= i <= n,
                n == self@.len(),
                spec_get(self@, name@) == spec_get(self@.skip(i as int), name@),
            decreases n - i,
        {
            proof {
                assert(self@.skip(i as int)[0] == self@[i as int]);
                assert(self@.skip(i as int).skip(1) =~= self@.skip(i as int + 1));
            }
            if str_lex_cmp(self.entries[i].0.as_str(), name) == 0 {
                return Some(&self.entries[i].1);
            }
            i = i + 1;
        }
        proof {
            assert(self@.skip(n as int) =~= Seq::<(Seq<char>, EntryModel)>::empty());
        }
        None
    }

    /// Whether `name` is bound in the store.
    pub fn contains_key(&self, name: &str) -> (r: bool)
        ensures
            r == (spec_get(self@, name@) is Some),
    {
        self.get(name).is_some()
    }

    /// A new store, identical to this one except that `name` is bound to
    /// `entry` — whether or not `name` was bound before. This store is not
    /// changed.
    pub fn update(&self, name: String, entry: Entry) -> (r: EntryStore)
        requires
            self.wf(),
        ensures
            r.wf(),
            r@ == spec_update(self@, name@, entry@),
    {
        let n = self.entries.len();
        let mut pos: usize = 0;
        let mut replace = false;
        loop
            invariant_except_break
                !replace,
            invariant
                0 <= pos <= n,
                n == self@.len(),
                forall|j: int| 0 <= j < pos ==> lex_lt(self@[j].0, name@),
            ensures
                0 <= pos <= n,
                forall|j: int| 0 <= j < pos ==> lex_lt(self@[j].0, name@),
                pos < n ==> !lex_lt(self@[pos as int].0, name@),
                replace <==> (pos < n && self@[pos as int].0 == name@),
            decreases n - pos,
        {
            if pos == n {
                break;
            }
            let c = str_lex_cmp(self.entries[pos].0.as_str(), name.as_str());
            if c == 0 {
                proof {
                    lemma_lex_irrefl(name@);
                }
                replace = true;
                break;
            }
            if c == 1 {
                proof {
                    lemma_lex_asym(name@, self@[pos as int].0);
                }
                break;
            }
            proof {
                lemma_lex_irrefl(name@);
            }
            pos = pos + 1;
        }
        let ghost p = pos as int;
        proof {
            lemma_spec_update_decomp(self@, name@, entry@, p);
            lemma_spec_update_sorted(self@, name@, entry@, p);
        }
        let mut out: Vec<(String, Entry)> = Vec::new();
        let mut i: usize = 0;
        while i < pos
            invariant
                0 <= i <= pos <= n,
                n == self@.len(),
                out@.len() == i,
                forall|j: int|
                    0 <= j < i ==> (out@[j].0@, out@[j].1@) == self@[j],
            decreases pos - i,
        {
            let key = self.entries[i].0.clone();
            let value = self.entries[i].1.clone();
            out.push((key, value));
            i = i + 1;
        }
        out.push((name, entry));
        let mut j: usize = if replace {
            pos + 1
        } else {
            pos
        };
        let ghost tail_start = j as int;
        while j < n
            invariant
                tail_start <= j <= n,
                pos < n || tail_start >= pos,
                n == self@.len(),
                out@.len() == pos + 1 + j - tail_start,
                forall|t: int|
                    0 <= t < pos ==> (out@[t].0@, out@[t].1@) == self@[t],
                (out@[pos as int].0@, out@[pos as int].1@) == (name@, entry@),
                forall|t: int|
                    pos + 1 <= t < out@.len() ==> (out@[t].0@, out@[t].1@) == self@[
                        t - pos - 1 + tail_start],
            decreases n - j,
        {
            let key = self.entries[j].0.clone();
            let value = self.entries[j].1.clone();
            proof {
                assert((key@, value@) == self@[j as int]);
            }
            out.push((key, value));
            proof {
                assert(out@[out@.len() - 1] == (key, value));
            }
            j = j + 1;
        }
        let r = EntryStore { entries: out };
        proof {
            if replace {
                assert(r@ =~= self@.take(p) + seq![(name@, entry@)] + self@.skip(p + 1));
            } else {
                assert(r@ =~= self@.take(p) + seq![(name@, entry@)] + self@.skip(p));
            }
        }
        r
    }

    /// A new store, identical to this one but with `name` absent; a plain
    /// copy if `name` was not bound. This store is not changed.
    pub fn without(&self, name: &str) -> (r: EntryStore)
        requires
            self.wf(),
        ensures
            r.wf(),
            r@ == spec_remove(self@, name@),
    {
        let n = self.entries.len();
        let mut pos: usize = 0;
        loop
            invariant
                0 <= pos <= n,
                n == self@.len(),
                forall|j: int| 0 <= j < pos ==> self@[j].0 != name@,
            ensures
                0 <= pos <= n,
                forall|j: int| 0 <= j < pos ==> self@[j].0 != name@,
                pos < n ==> self@[pos as int].0 == name@,
            decreases n - pos,
        {
            if pos == n {
                break;
            }
            if str_lex_cmp(self.entries[pos].0.as_str(), name) == 0 {
                break;
            }
            pos = pos + 1;
        }
        let ghost p = pos as int;
        proof {
            lemma_spec_remove_decomp(self@, name@, p);
            lemma_spec_remove_sorted(self@, name@, p);
        }
        let mut out: Vec<(String, Entry)> = Vec::new();
        let mut i: usize = 0;
        while i < n
            invariant
                0 <= i <= n,
                n == self@.len(),
                pos <= n,
                out@.len() == if i <= pos {
                    i as int
                } else {
                    i - 1
                },
                forall|t: int|
                    0 <= t < out@.len() ==> (out@[t].0@, out@[t].1@) == self@[
                        if t < pos {
                            t
                        } else {
                            t + 1
                        }],
            decreases n - i,
        {
            if i != pos {
                let key = self.entries[i].0.clone();
                let value = self.entries[i].1.clone();
                out.push((key, value));
            }
            i = i + 1;
        }
        let r = EntryStore { entries: out };
        proof {
            if p < n {
                assert(r@ =~= self@.take(p) + self@.skip(p + 1));
            } else {
                assert(r@ =~= self@);
            }
        }
        r
    }

    /// The names bound in the store, in strictly ascending lexicographic
    /// order.
    pub fn keys(&self) -> (r: Vec<String>)
        requires
            self.wf(),
        ensures
            r@.len() == self@.len(),
            forall|i: int| 0 <= i < r@.len() ==> r@[i]@ == self@[i].0,
            forall|i: int, j: int| 0 <= i < j < r@.len() ==> lex_lt(r@[i]@, r@[j]@),
    {
        let n = self.entries.len();
        let mut out: Vec<String> = Vec::new();
        let mut i: usize = 0;
        while i < n
            invariant
                0 <= i <= n,
                n == self@.len(),
                out@.len() == i,
                forall|j: int| 0 <= j < i ==> out@[j]@ == self@[j].0,
            decreases n - i,
        {
            out.push(self.entries[i].0.clone());
            i = i + 1;
        }
        out
    }
}

impl Clone for EntryStore {
    /// The copy has the same pairs; the original is untouched.
    fn clone(&self) -> (r: Self)
        ensures
            r@ == self@,
    {
        let n = self.entries.len();
        let mut out: Vec<(String, Entry)> = Vec::new();
        let mut i: usize = 0;
        while i < n
            invariant
                0 <= i <= n,
                n == self@.len(),
                out@.len() == i,
                forall|j: int| 0 <= j < i ==> (out@[j].0@, out@[j].1@) == self@[j],
            decreases n - i,
        {
            let key = self.entries[i].0.clone();
            let value = self.entries[i].1.clone();
            out.push((key, value));
            i = i + 1;
        }
        let r = EntryStore { entries: out };
        proof {
            assert(r@ =~= self@);
        }
        r
    }
}

impl PartialEq for EntryStore {
    fn eq(&self, other: &Self) -> (r: bool) {
        let n = self.entries.len();
        if n != other.entries.len() {
            proof {
                assert(self@.len() != other@.len());
            }
            return false;
        }
        let mut i: usize = 0;
        while i < n
            invariant
                0 <= i <= n,
                n == self@.len(),
                n == other@.len(),
                forall|j: int| 0 <= j < i ==> self@[j] == other@[j],
            decreases n - i,
        {
            if !(self.entries[i].0 == other.entries[i].0) {
                proof {
                    assert(self@[i as int].0 != other@[i as int].0);
                }
                return false;
            }
            if !(self.entries[i].1 == other.entries[i].1) {
                proof {
                    assert(self@[i as int].1 != other@[i as int].1);
                }
                return false;
            }
            i = i + 1;
        }
        proof {
            assert(self@ =~= other@);
        }
        true
    }
}

impl vstd::std_specs::cmp::PartialEqSpecImpl for EntryStore {
    open spec fn obeys_eq_spec() -> bool {
        true
    }

    open spec fn eq_spec(&self, other: &Self) -> bool {
        self@ == other@
    }
}

} // verus!
