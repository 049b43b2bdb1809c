//! A small association table from ids to ids, with insert-overwrites
//! semantics, viewed as a mathematical map.

use vstd::prelude::*;

verus! {

/// The map described by an association list: later entries shadow
/// earlier ones with the same key.
pub open spec fn assoc_map(s: Seq<(usize, usize)>) -> Map<usize, usize>
    decreases s.len(),
{
    if s.len() == 0 {
        Map::empty()
    } else {
        assoc_map(s.drop_last()).insert(s.last().0, s.last().1)
    }
}

/// Entries at or after position `i` that never mention `k` cannot change
/// what the table holds at `k`.
proof fn lemma_assoc_skip(s: Seq<(usize, usize)>, i: int, k: usize)
    requires
        0 <= i <= s.len(),
        forall|j: int| i <= j < s.len() ==> (#[trigger] s[j]).0 != k,
    ensures
        assoc_map(s).contains_key(k) == assoc_map(s.take(i)).contains_key(k),
        assoc_map(s).contains_key(k) ==> assoc_map(s)[k] == assoc_map(s.take(i))[k],
    decreases s.len() - i,
{
    if i == s.len() {
        assert(s.take(i) =~= s);
    } else {
        lemma_assoc_skip(s.drop_last(), i, k);
        assert(s.drop_last().take(i) =~= s.take(i));
        assert(s.last().0 != k);
    }
}

/// A table from integer ids to integer ids; an insert with a key already
/// present replaces its value.
pub struct IdMap {
    entries: Vec<(usize, usize)>,
}

impl IdMap {
    /// The mathematical map this table holds.
    pub closed spec fn view(&self) -> Map<usize, usize> {
        assoc_map(self.entries@)
    }

    /// An empty table.
    pub fn new() -> (r: Self)
        ensures
            r@ == Map::<usize, usize>::empty(),
    {
        let r = IdMap { entries: Vec::new() };
        proof {
            assert(r@ =~= Map::<usize, usize>::empty());
        }
        r
    }

    /// Binds `k` to `v`, replacing any earlier binding of `k`.
    pub fn insert(&mut self, k: usize, v: usize)
        ensures
            final(self)@ == old(self)@.insert(k, v),
    {
        self.entries.push((k, v));
        proof {
            assert(self.entries@.drop_last() =~= old(self).entries@);
        }
    }

    /// Looks up the value bound to `k`, if any.
    pub fn get(&self, k: usize) -> (r: Option<usize>)
        ensures
            r == (if self@.contains_key(k) {
                Some(self@[k])
            } else {
                None::<usize>
            }),
    {
        let mut i = self.entries.len();
        while i > 0
            invariant
                i <= self.entries@.len(),
                forall|j: int| i <= j < self.entries@.len()
                    ==> (#[trigger] self.entries@[j]).0 != k,
            decreases i,
        {
            let (ek, ev) = self.entries[i - 1];
            if ek == k {
                proof {
                    lemma_assoc_skip(self.entries@, i as int, k);
                    assert(self.entries@.take(i as int).drop_last()
                        =~= self.entries@.take(i - 1));
                    assert(self.entries@.take(i as int).last() == self.entries@[i - 1]);
                }
                return Some(ev);
            }
            i = i - 1;
        }
        proof {
            lemma_assoc_skip(self.entries@, 0, k);
            assert(self.entries@.take(0) =~= Seq::<(usize, usize)>::empty());
        }
        None
    }
}

} // verus!
