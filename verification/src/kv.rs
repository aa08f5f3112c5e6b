//! The key-value collaborator interface, and an in-memory store.
//!
//! The registry requires only this narrow interface from its store: write,
//! read, prefix scan and delete over flat string pairs. Any operation may
//! fail with [`Error::Transport`] when the store is remote; no operation
//! may swallow an error. A handle must be safe for concurrent use by its
//! own implementation — the registry adds no locking of its own.
//!
//! [`MemKv`] is the library's own store: a vector of pairs with pairwise
//! distinct keys, verified against the same interface. It never reports a
//! transport failure.

use vstd::prelude::*;
use vstd::string::StrSliceExecFns;

use crate::error::Error;

verus! {

/// Everything a scan result must be: only pairs of the store whose key
/// carries the prefix, each such key exactly once, in no promised order.
pub open spec fn scan_ok(
    m: Map<Seq<char>, Seq<char>>,
    prefix: Seq<char>,
    entries: Seq<(String, String)>,
) -> bool {
    &&& (forall|i: int|
        0 <= i < entries.len() ==> m.dom().contains((#[trigger] entries[i]).0@)
            && prefix.is_prefix_of(entries[i].0@) && entries[i].1@ == m[entries[i].0@])
    &&& (forall|i: int, j: int|
        0 <= i < j < entries.len() ==> (#[trigger] entries[i]).0@ != (#[trigger] entries[j]).0@)
    &&& (forall|k: Seq<char>|
        #![trigger m.dom().contains(k)]
        m.dom().contains(k) && prefix.is_prefix_of(k) ==> exists|i: int|
            0 <= i < entries.len() && (#[trigger] entries[i]).0@ == k)
}

/// The store interface the registry is built on.
pub trait KvClient: Sized {
    /// The store's contents, as a map from key text to value text.
    spec fn kv(&self) -> Map<Seq<char>, Seq<char>>;

    /// Write one pair, overwriting a present key.
    fn put(&mut self, key: &str, value: &str) -> (r: Result<(), Error>)
        ensures
            r is Ok ==> final(self).kv() == old(self).kv().insert(key@, value@),
            r is Err ==> r->Err_0 == Error::Transport,
    ;

    /// Read the value under a key; absent keys are a definite `NotFound`.
    fn get(&self, key: &str) -> (r: Result<String, Error>)
        ensures
            match r {
                Ok(v) => self.kv().dom().contains(key@) && v@ == self.kv()[key@],
                Err(e) => e == Error::Transport || (e == Error::NotFound && !self.kv().dom().contains(key@)),
            },
    ;

    /// All pairs whose key begins with the prefix.
    fn scan_prefix(&self, prefix: &str) -> (r: Result<Vec<(String, String)>, Error>)
        ensures
            match r {
                Ok(entries) => scan_ok(self.kv(), prefix@, entries@),
                Err(e) => e == Error::Transport,
            },
    ;

    /// Remove a key; removing an absent key is no error.
    fn delete(&mut self, key: &str) -> (r: Result<(), Error>)
        ensures
            r is Ok ==> final(self).kv() == old(self).kv().remove(key@),
            r is Err ==> r->Err_0 == Error::Transport,
    ;
}

/// Character-wise string equality.
fn str_eq(a: &str, b: &str) -> (r: bool)
    ensures
        r == (a@ == b@),
{
    let na = a.unicode_len();
    let nb = b.unicode_len();
    if na != nb {
        return false;
    }
    let mut i: usize = 0;
    while i < na
        invariant
            i <= na,
            na == a@.len(),
            na == b@.len(),
            forall|j: int| 0 <= j < i ==> a@[j] == b@[j],
        decreases na - i,
    {
        if a.get_char(i) != b.get_char(i) {
            return false;
        }
        i += 1;
    }
    proof {
        assert(a@ =~= b@);
    }
    true
}

/// Does `s` begin with `p`?
fn str_starts_with(s: &str, p: &str) -> (r: bool)
    ensures
        r == p@.is_prefix_of(s@),
{
    let ns = s.unicode_len();
    let np = p.unicode_len();
    if np > ns {
        return false;
    }
    let mut i: usize = 0;
    while i < np
        invariant
            i <= np,
            np == p@.len(),
            ns == s@.len(),
            np <= ns,
            forall|j: int| 0 <= j < i ==> s@[j] == p@[j],
        decreases np - i,
    {
        if s.get_char(i) != p.get_char(i) {
            assert(!(p@ =~= s@.subrange(0, np as int)));
            return false;
        }
        i += 1;
    }
    proof {
        assert(p@ =~= s@.subrange(0, np as int));
    }
    true
}

/// The map a pair list denotes; later pairs overwrite earlier ones.
pub open spec fn entries_map(s: Seq<(String, String)>) -> Map<Seq<char>, Seq<char>>
    decreases s.len(),
{
    if s.len() <= 0 {
        Map::empty()
    } else {
        entries_map(s.drop_last()).insert(s.last().0@, s.last().1@)
    }
}

/// A key is in the map exactly when some pair holds it.
proof fn lemma_entries_map_dom(s: Seq<(String, String)>, k: Seq<char>)
    ensures
        entries_map(s).dom().contains(k) <==> exists|i: int|
            0 <= i < s.len() && (#[trigger] s[i]).0@ == k,
    decreases s.len(),
{
    if s.len() > 0 {
        lemma_entries_map_dom(s.drop_last(), k);
        if entries_map(s).dom().contains(k) {
            if s.last().0@ == k {
                assert(s[s.len() - 1].0@ == k);
            } else {
                let i = choose|i: int| 0 <= i < s.len() - 1 && (#[trigger] s.drop_last()[i]).0@ == k;
                assert(s[i].0@ == k);
            }
        }
        if exists|i: int| 0 <= i < s.len() && (#[trigger] s[i]).0@ == k {
            let i = choose|i: int| 0 <= i < s.len() && (#[trigger] s[i]).0@ == k;
            if i < s.len() - 1 {
                assert(s.drop_last()[i].0@ == k);
            }
        }
    }
}

/// With pairwise distinct keys, the pair holding a key gives its value.
proof fn lemma_entries_map_at(s: Seq<(String, String)>, i: int)
    requires
        forall|a: int, b: int|
            0 <= a < b < s.len() ==> (#[trigger] s[a]).0@ != (#[trigger] s[b]).0@,
        0 <= i < s.len(),
    ensures
        entries_map(s).dom().contains(s[i].0@),
        entries_map(s)[s[i].0@] == s[i].1@,
    decreases s.len(),
{
    if i == s.len() - 1 {
    } else {
        lemma_entries_map_at(s.drop_last(), i);
        assert(s.drop_last()[i] == s[i]);
        assert(s[i].0@ != s.last().0@);
    }
}

/// The library's own store: flat pairs in memory, distinct keys.
pub struct MemKv {
    entries: Vec<(String, String)>,
}

impl MemKv {
    #[verifier::type_invariant]
    spec fn inv(&self) -> bool {
        forall|a: int, b: int|
            0 <= a < b < self.entries@.len() ==> (#[trigger] self.entries@[a]).0@ != (
            #[trigger] self.entries@[b]).0@
    }

    pub fn new() -> (r: MemKv)
        ensures
            r.kv() == Map::<Seq<char>, Seq<char>>::empty(),
    {
        MemKv { entries: Vec::new() }
    }

    /// The entries with `key`'s pair left out, in their stored order.
    fn filtered_entries(&self, key: &str) -> (kept: Vec<(String, String)>)
        ensures
            forall|a: int| 0 <= a < kept@.len() ==> (#[trigger] kept@[a]).0@ != key@,
            forall|a: int, b: int|
                0 <= a < b < kept@.len() ==> (#[trigger] kept@[a]).0@ != (#[trigger] kept@[b]).0@,
            entries_map(kept@) == self.kv().remove(key@),
    {
        proof {
            use_type_invariant(self);
        }
        let ghost s = self.entries@;
        let mut kept: Vec<(String, String)> = Vec::new();
        let n = self.entries.len();
        let mut i: usize = 0;
        proof {
            assert(s.take(0) =~= Seq::<(String, String)>::empty());
            assert(entries_map(kept@) =~= entries_map(s.take(0)).remove(key@));
        }
        while i < n
            invariant
                i <= n,
                n == s.len(),
                self.entries@ == s,
                self.inv(),
                forall|a: int| 0 <= a < kept@.len() ==> (#[trigger] kept@[a]).0@ != key@,
                forall|a: int|
                    #![trigger kept@[a]]
                    0 <= a < kept@.len() ==> exists|j: int| 0 <= j < i && #[trigger] s[j]
                        == kept@[a],
                forall|a: int, b: int|
                    0 <= a < b < kept@.len() ==> (#[trigger] kept@[a]).0@ != (
                    #[trigger] kept@[b]).0@,
                entries_map(kept@) == entries_map(s.take(i as int)).remove(key@),
            decreases n - i,
        {
            let ghost kept0 = kept@;
            proof {
                assert(s.take(i as int + 1).drop_last() =~= s.take(i as int));
                assert(s.take(i as int + 1).last() == s[i as int]);
            }
            if str_eq(self.entries[i].0.as_str(), key) {
                proof {
                    assert(entries_map(s.take(i as int + 1)).remove(key@) =~= entries_map(
                        s.take(i as int),
                    ).remove(key@));
                }
            } else {
                let pair = (self.entries[i].0.clone(), self.entries[i].1.clone());
                proof {
                    assert(pair == s[i as int]);
                }
                kept.push(pair);
                proof {
                    assert(kept@.drop_last() =~= kept0);
                    assert(forall|a: int| 0 <= a < kept0.len() ==> kept@[a] == kept0[a]);
                    assert(kept@[kept@.len() - 1] == s[i as int]);
                    assert forall|a: int| 0 <= a < kept@.len() - 1 implies (
                    #[trigger] kept@[a]).0@ != s[i as int].0@ by {
                        let j = choose|j: int| 0 <= j < i && #[trigger] s[j] == kept0[a];
                        assert(s[j].0@ != s[i as int].0@);
                    }
                    assert(entries_map(kept@) == entries_map(kept0).insert(
                        s[i as int].0@,
                        s[i as int].1@,
                    ));
                    assert(entries_map(s.take(i as int + 1)).remove(key@) =~= entries_map(
                        s.take(i as int),
                    ).remove(key@).insert(s[i as int].0@, s[i as int].1@));
                }
            }
            i += 1;
        }
        proof {
            assert(s.take(n as int) =~= s);
        }
        kept
    }
}

impl KvClient for MemKv {
    closed spec fn kv(&self) -> Map<Seq<char>, Seq<char>> {
        entries_map(self.entries@)
    }

    fn put(&mut self, key: &str, value: &str) -> (r: Result<(), Error>)
        ensures
            r is Ok,
    {
        let mut kept = self.filtered_entries(key);
        let ghost s1 = kept@;
        kept.push((key.to_owned(), value.to_owned()));
        proof {
            assert(kept@.drop_last() =~= s1);
            assert(forall|j: int| 0 <= j < s1.len() ==> kept@[j] == s1[j]);
            assert(entries_map(kept@) == entries_map(s1).insert(key@, value@));
            assert(entries_map(s1).insert(key@, value@) =~= old(self).kv().insert(key@, value@));
        }
        self.entries = kept;
        Ok(())
    }

    fn get(&self, key: &str) -> (r: Result<String, Error>)
        ensures
            r is Err ==> r->Err_0 == Error::NotFound,
    {
        proof {
            use_type_invariant(self);
        }
        let n = self.entries.len();
        let mut i: usize = 0;
        while i < n
            invariant
                i <= n,
                n == self.entries@.len(),
                forall|j: int| 0 <= j < i ==> (#[trigger] self.entries@[j]).0@ != key@,
                self.inv(),
            decreases n - i,
        {
            if str_eq(self.entries[i].0.as_str(), key) {
                proof {
                    lemma_entries_map_at(self.entries@, i as int);
                }
                return Ok(self.entries[i].1.clone());
            }
            i += 1;
        }
        proof {
            lemma_entries_map_dom(self.entries@, key@);
        }
        Err(Error::NotFound)
    }

    fn scan_prefix(&self, prefix: &str) -> (r: Result<Vec<(String, String)>, Error>)
        ensures
            r is Ok,
    {
        proof {
            use_type_invariant(self);
        }
        let mut out: Vec<(String, String)> = Vec::new();
        let n = self.entries.len();
        let mut i: usize = 0;
        while i < n
            invariant
                i <= n,
                n == self.entries@.len(),
                self.inv(),
                forall|a: int|
                    #![trigger out@[a]]
                    0 <= a < out@.len() ==> exists|j: int|
                        0 <= j < i && #[trigger] self.entries@[j] == out@[a],
                forall|a: int|
                    0 <= a < out@.len() ==> prefix@.is_prefix_of((#[trigger] out@[a]).0@),
                forall|a: int, b: int|
                    0 <= a < b < out@.len() ==> (#[trigger] out@[a]).0@ != (#[trigger] out@[b]).0@,
                forall|j: int|
                    0 <= j < i && prefix@.is_prefix_of((#[trigger] self.entries@[j]).0@)
                        ==> exists|a: int| 0 <= a < out@.len() && #[trigger] out@[a] == self.entries@[j],
            decreases n - i,
        {
            if str_starts_with(self.entries[i].0.as_str(), prefix) {
                let pair = (self.entries[i].0.clone(), self.entries[i].1.clone());
                proof {
                    assert(pair == self.entries@[i as int]);
                }
                let ghost out0 = out@;
                out.push(pair);
                proof {
                    assert(forall|a: int| 0 <= a < out0.len() ==> out@[a] == out0[a]);
                    assert(out@[out@.len() - 1] == self.entries@[i as int]);
                    assert forall|a: int| 0 <= a < out@.len() - 1 implies (#[trigger] out@[a]).0@
                        != self.entries@[i as int].0@ by {
                        let j = choose|j: int|
                            0 <= j < i && #[trigger] self.entries@[j] == out0[a];
                        assert(self.entries@[j].0@ != self.entries@[i as int].0@);
                    }
                }
            }
            i += 1;
        }
        proof {
            let s = self.entries@;
            let m = entries_map(s);
            assert forall|a: int| 0 <= a < out@.len() implies m.dom().contains(
                (#[trigger] out@[a]).0@,
            ) && prefix@.is_prefix_of(out@[a].0@) && out@[a].1@ == m[out@[a].0@] by {
                let j = choose|j: int| 0 <= j < s.len() && #[trigger] s[j] == out@[a];
                lemma_entries_map_at(s, j);
            }
            assert forall|k: Seq<char>|
                m.dom().contains(k) && prefix@.is_prefix_of(k) implies exists|a: int|
                0 <= a < out@.len() && (#[trigger] out@[a]).0@ == k by {
                lemma_entries_map_dom(s, k);
                let j = choose|j: int| 0 <= j < s.len() && (#[trigger] s[j]).0@ == k;
                assert(prefix@.is_prefix_of(s[j].0@));
                let a = choose|a: int| 0 <= a < out@.len() && #[trigger] out@[a] == s[j];
                assert(out@[a].0@ == k);
            }
        }
        Ok(out)
    }

    fn delete(&mut self, key: &str) -> (r: Result<(), Error>)
        ensures
            r is Ok,
    {
        let kept = self.filtered_entries(key);
        self.entries = kept;
        Ok(())
    }
}

} // verus!
