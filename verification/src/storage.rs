//! The in-memory storage behind `near.storage.put` and `near.storage.get`:
//! text values under text keys, for the duration of one script run.
use vstd::prelude::*;
use crate::json::str_eq;

verus! {

/// The value stored under `key` in `entries`: the last entry with that key.
pub open spec fn stored_in(entries: Seq<(String, String)>, key: Seq<char>) -> Option<Seq<char>>
    decreases entries.len(),
{
    if entries.len() == 0 {
        None
    } else if entries.last().0@ == key {
        Some(entries.last().1@)
    } else {
        stored_in(entries.drop_last(), key)
    }
}

/// Key–value storage of texts.
pub struct Storage {
    entries: Vec<(String, String)>,
}

impl Storage {
    /// The value stored under `key`, if any.
    pub closed spec fn stored(&self, key: Seq<char>) -> Option<Seq<char>> {
        stored_in(self.entries@, key)
    }

    /// Empty storage.
    pub fn new() -> (r: Storage)
        ensures
            forall|key: Seq<char>| r.stored(key) is None,
    {
        Storage { entries: Vec::new() }
    }

    /// The value stored under `key` (`near.storage.get`).
    pub fn get(&self, key: &str) -> (r: Option<&String>)
        ensures
            r matches Some(v) ==> self.stored(key@) == Some(v@),
            r is None ==> self.stored(key@) is None,
    {
        let mut i: usize = self.entries.len();
        assert(self.entries@.take(self.entries@.len() as int) =~= self.entries@);
        while i > 0
            invariant
                i <= self.entries@.len(),
                self.stored(key@) == stored_in(self.entries@.take(i as int), key@),
            decreases i,
        {
            let ghost t = self.entries@.take(i as int);
            assert(t.drop_last() =~= self.entries@.take(i - 1));
            assert(t.last() == self.entries@[i - 1]);
            if str_eq(self.entries[i - 1].0.as_str(), key) {
                return Some(&self.entries[i - 1].1);
            }
            i = i - 1;
        }
        None
    }

    /// Store `value` under `key`, replacing what was there
    /// (`near.storage.put`). Other keys keep their values.
    pub fn put(&mut self, key: &str, value: String)
        ensures
            forall|k: Seq<char>|
                #[trigger] final(self).stored(k) == if k == key@ {
                    Some(value@)
                } else {
                    old(self).stored(k)
                },
    {
        let n = self.entries.len();
        let mut i: usize = n;
        while i > 0
            invariant
                i <= n == self.entries@.len(),
                self.entries@ == old(self).entries@,
                forall|j: int| i <= j < n ==> (#[trigger] self.entries@[j]).0@ != key@,
            decreases i,
        {
            if str_eq(self.entries[i - 1].0.as_str(), key) {
                let ghost before = self.entries@;
                let k2 = self.entries[i - 1].0.clone();
                let entry = (k2, value);
                self.entries.set(i - 1, entry);
                proof {
                    lemma_replace_last_match(before, (i - 1) as int, entry);
                }
                return;
            }
            i = i - 1;
        }
        let ghost before = self.entries@;
        let entry = (String::from_str(key), value);
        self.entries.push(entry);
        proof {
            assert(self.entries@.drop_last() =~= before);
            assert forall|k: Seq<char>| k != key@ implies stored_in(self.entries@, k) == stored_in(
                before,
                k,
            ) by {}
        }
    }
}

/// Replacing the value of the last entry with some key changes what is stored
/// under that key and nothing else.
proof fn lemma_replace_last_match(e: Seq<(String, String)>, i: int, entry: (String, String))
    requires
        0 <= i < e.len(),
        e[i].0@ == entry.0@,
        forall|j: int| i < j < e.len() ==> (#[trigger] e[j]).0@ != entry.0@,
    ensures
        forall|k: Seq<char>|
            #[trigger] stored_in(e.update(i, entry), k) == if k == entry.0@ {
                Some(entry.1@)
            } else {
                stored_in(e, k)
            },
    decreases e.len(),
{
    let u = e.update(i, entry);
    if i == e.len() - 1 {
        assert(u.drop_last() =~= e.drop_last());
        assert(u.last() == entry);
        assert forall|k: Seq<char>| #[trigger] stored_in(u, k) == if k == entry.0@ {
            Some(entry.1@)
        } else {
            stored_in(e, k)
        } by {}
    } else {
        let d = e.drop_last();
        lemma_replace_last_match(d, i, entry);
        assert(u.drop_last() =~= d.update(i, entry));
        assert(u.last() == e.last());
        assert(e[e.len() - 1].0@ != entry.0@);
        assert forall|k: Seq<char>| #[trigger] stored_in(u, k) == if k == entry.0@ {
            Some(entry.1@)
        } else {
            stored_in(e, k)
        } by {
            assert(stored_in(d.update(i, entry), k) == if k == entry.0@ {
                Some(entry.1@)
            } else {
                stored_in(d, k)
            });
        }
    }
}

} // verus!
