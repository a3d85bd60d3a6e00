//! Built indexes that are kept for later uploads.

use vstd::prelude::*;

verus! {

/// Compares two byte strings.
pub fn same_bytes(a: &[u8], b: &[u8]) -> (r: bool)
    ensures
        r == (a@ == b@),
{
    if a.len() != b.len() {
        return false;
    }
    for i in 0..a.len()
        invariant
            a@.len() == b@.len(),
            forall|j: int| 0 <= j < i ==> a@[j] == b@[j],
    {
        if a[i] != b[i] {
            return false;
        }
    }
    assert(a@ =~= b@);
    true
}

/// Values that are found again by a byte string.
pub struct KeyedCache<T> {
    entries: Vec<(Vec<u8>, T)>,
}

impl<T> KeyedCache<T> {
    /// The last value under each key.
    pub closed spec fn view(&self) -> Map<Seq<u8>, T> {
        Map::new(
            |key: Seq<u8>| exists|i: int| #[trigger] self.stands_at(key, i),
            |key: Seq<u8>| self.entries@[choose|i: int| #[trigger] self.stands_at(key, i)].1,
        )
    }

    /// The entry of a key is number `i`.
    closed spec fn stands_at(&self, key: Seq<u8>, i: int) -> bool {
        0 <= i < self.entries@.len() && self.entries@[i].0@ == key
    }

    /// No key has two entries.
    #[verifier::type_invariant]
    closed spec fn keys_differ(self) -> bool {
        forall|i: int, j: int|
            0 <= i < j < self.entries@.len() ==> (#[trigger] self.entries@[i]).0@ != (
            #[trigger] self.entries@[j]).0@
    }

    /// A cache that holds nothing.
    pub fn new() -> (cache: Self)
        ensures
            cache.view() == Map::<Seq<u8>, T>::empty(),
    {
        let cache = KeyedCache { entries: Vec::new() };
        assert(cache.view() =~= Map::<Seq<u8>, T>::empty());
        cache
    }

    /// Finds the value of a key.
    pub fn get(&self, key: &[u8]) -> (r: Option<&T>)
        ensures
            r is Some <==> self.view().contains_key(key@),
            r matches Some(value) ==> *value == self.view()[key@],
    {
        proof {
            use_type_invariant(self);
        }
        for i in 0..self.entries.len()
            invariant
                self.keys_differ(),
                forall|j: int| 0 <= j < i ==> (#[trigger] self.entries@[j]).0@ != key@,
        {
            if same_bytes(&self.entries[i].0, key) {
                assert(self.stands_at(key@, i as int));
                proof {
                    let j = choose|j: int| #[trigger] self.stands_at(key@, j);
                    assert(self.entries@[j].0@ == key@);
                }
                return Some(&self.entries[i].1);
            }
        }
        None
    }

    /// Puts a value under a key, in place of the one that may stand there.
    pub fn insert(&mut self, key: Vec<u8>, value: T)
        ensures
            final(self).view() == old(self).view().insert(key@, value),
    {
        proof {
            use_type_invariant(&*self);
        }
        let ghost before = *self;
        let mut kept: Vec<(Vec<u8>, T)> = Vec::new();
        std::mem::swap(&mut kept, &mut self.entries);
        assert(kept@ == before.entries@);
        let mut at: usize = 0;
        while at < kept.len() && !same_bytes(&kept[at].0, &key)
            invariant
                at <= kept@.len(),
                kept@ == before.entries@,
                forall|j: int| 0 <= j < at ==> (#[trigger] kept@[j]).0@ != key@,
            decreases kept@.len() - at,
        {
            at = at + 1;
        }
        let ghost found = at as int;
        if at < kept.len() {
            kept.swap_remove(at);
        }
        kept.push((key, value));
        let ghost others = kept@.drop_last();
        proof {
            let n = before.entries@.len() as int;
            if found < n {
                let moved = before.entries@.update(found, before.entries@.last()).drop_last();
                assert(others =~= moved);
                assert forall|i: int| 0 <= i < others.len() implies (#[trigger] others[i]).0@
                    != key@ by {
                    let from = if i == found { n - 1 } else { i };
                    assert(others[i] == before.entries@[from]);
                    assert(from != found);
                    assert(before.entries@[found].0@ == key@);
                }
            } else {
                assert(others =~= before.entries@);
            }
            assert forall|i: int, j: int| 0 <= i < j < kept@.len() implies (#[trigger] kept@[i]).0@
                != (#[trigger] kept@[j]).0@ by {
                if j < others.len() {
                    let a = if i == found { n - 1 } else { i };
                    let b = if j == found { n - 1 } else { j };
                    assert(kept@[i] == before.entries@[a]);
                    assert(kept@[j] == before.entries@[b]);
                    assert(a != b);
                } else {
                    assert(kept@[i] == others[i]);
                }
            }
        }
        self.entries = kept;
        proof {
            let n = before.entries@.len() as int;
            assert forall|k: Seq<u8>| #[trigger] self.view().contains_key(k)
                == before.view().insert(key@, value).contains_key(k) by {
                if k == key@ {
                    assert(self.stands_at(k, self.entries@.len() - 1));
                } else {
                    if before.view().contains_key(k) {
                        let i = choose|i: int| before.stands_at(k, i);
                        let to = if found < n && i == n - 1 { found } else { i };
                        assert(i != found);
                        assert(self.entries@[to] == before.entries@[i]);
                        assert(self.stands_at(k, to));
                    }
                    if self.view().contains_key(k) {
                        let i = choose|i: int| self.stands_at(k, i);
                        let from = if found < n && i == found { n - 1 } else { i };
                        assert(self.entries@[i] == before.entries@[from]);
                        assert(before.stands_at(k, from));
                    }
                }
            }
            assert forall|k: Seq<u8>| #[trigger] self.view().contains_key(k) implies self.view()[k]
                == before.view().insert(key@, value)[k] by {
                let i = choose|i: int| self.stands_at(k, i);
                if k == key@ {
                    assert(self.stands_at(k, self.entries@.len() - 1));
                    assert(i == self.entries@.len() - 1);
                } else {
                    let from = if found < n && i == found { n - 1 } else { i };
                    assert(self.entries@[i] == before.entries@[from]);
                    assert(before.stands_at(k, from));
                    let j = choose|j: int| before.stands_at(k, j);
                    assert(before.entries@[j].0@ == before.entries@[from].0@);
                    assert(j == from);
                }
            }
            assert(self.view() =~= before.view().insert(key@, value));
        }
    }
}

} // verus!
