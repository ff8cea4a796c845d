//! Append-only arenas issuing opaque, never-reused keys.
//!
//! `Arena<T>` owns primary values; every `insert` mints a fresh key from a
//! monotone counter, and no key is ever freed or reused, even after the
//! scope that minted it has conceptually closed.  `SecondaryArena<T>` is a
//! keyed overlay over the same key space whose entries may be absent (an
//! identifier that is declared but not locally defined, such as a function
//! argument).  Both are purely additive: there is no deletion, matching the
//! never-mutate-after-definition discipline of SSA form.

use vstd::prelude::*;

verus! {

/// An opaque key into an [`Arena`].
#[derive(Clone, Copy, Debug, PartialEq, Eq, Structural)]
pub struct Key(pub usize);

/// Append-only key-to-value map; keys are minted by a monotone counter.
#[derive(Debug)]
pub struct Arena<T> {
    slots: Vec<Option<T>>,
    uid: usize,
}

/// Keyed overlay sharing an [`Arena`]'s key space; entries may be absent.
#[derive(Debug)]
pub struct SecondaryArena<T> {
    slots: Vec<Option<T>>,
}

impl<T> View for Arena<T> {
    type V = Map<nat, T>;

    closed spec fn view(&self) -> Map<nat, T> {
        Map::new(
            |k: nat| k < self.slots@.len() && self.slots@[k as int] is Some,
            |k: nat| self.slots@[k as int]->0,
        )
    }
}

impl<T> Arena<T> {
    /// The key that the next `insert` will mint.
    pub closed spec fn next_key(&self) -> nat {
        if self.uid >= self.slots@.len() {
            self.uid as nat
        } else {
            self.slots@.len()
        }
    }

    /// The key that the next `insert` will mint, as a run-time value.
    pub fn peek_next_key(&self) -> (n: usize)
        ensures
            n == self.next_key(),
    {
        if self.uid < self.slots.len() {
            self.slots.len()
        } else {
            self.uid
        }
    }

    /// The mint counter is a machine word.
    pub proof fn lemma_next_key_bound(&self)
        ensures
            self.next_key() <= usize::MAX,
    {
        broadcast use vstd::std_specs::vec::axiom_spec_len;

        assert(self.slots@.len() == vstd::std_specs::vec::spec_vec_len(&self.slots));
    }

    /// Every key the arena holds lies below the next key to be minted.
    pub proof fn lemma_dom_below_next(&self)
        ensures
            forall|k: nat| self@.dom().contains(k) ==> k < self.next_key(),
    {
    }

    /// An empty arena whose first key is key zero.
    pub fn new() -> (r: Self)
        ensures
            r@ == Map::<nat, T>::empty(),
            r.next_key() == 0,
    {
        let r = Arena { slots: Vec::new(), uid: 0 };
        proof {
            assert(r@ =~= Map::<nat, T>::empty());
        }
        r
    }

    /// An empty arena that continues minting at `start`, so that its keys
    /// stay disjoint from every key an earlier arena has already issued.
    pub fn new_from(start: usize) -> (r: Self)
        ensures
            r@ == Map::<nat, T>::empty(),
            r.next_key() == start,
    {
        let r = Arena { slots: Vec::new(), uid: start };
        proof {
            assert(r@ =~= Map::<nat, T>::empty());
        }
        r
    }

    pub fn get(&self, key: Key) -> (r: Option<&T>)
        ensures
            match r {
                Some(v) => self@.dom().contains(key.0 as nat) && *v == self@[key.0 as nat],
                None => !self@.dom().contains(key.0 as nat),
            },
    {
        if key.0 < self.slots.len() {
            match &self.slots[key.0] {
                Some(v) => Some(v),
                None => None,
            }
        } else {
            None
        }
    }

    /// Mint a fresh key and store `v` under it.
    pub fn insert(&mut self, v: T) -> (key: Key)
        requires
            old(self).next_key() < usize::MAX,
        ensures
            key.0 == old(self).next_key(),
            final(self)@ == old(self)@.insert(key.0 as nat, v),
            final(self).next_key() == old(self).next_key() + 1,
    {
        let key = if self.uid < self.slots.len() {
            Key(self.slots.len())
        } else {
            Key(self.uid)
        };
        while self.slots.len() < key.0
            invariant
                key.0 < usize::MAX,
                self.slots@.len() <= key.0,
                key.0 == old(self).next_key(),
                self.uid == old(self).uid,
                self.slots@ == old(self).slots@ + Seq::new(
                    (self.slots@.len() - old(self).slots@.len()) as nat,
                    |i: int| None::<T>,
                ),
            decreases key.0 - self.slots.len(),
        {
            self.slots.push(None);
        }
        self.slots.push(Some(v));
        self.uid = key.0 + 1;
        proof {
            assert(self@ =~= old(self)@.insert(key.0 as nat, v));
        }
        key
    }

    /// Mint a fresh key and store the value that `f` builds from that very
    /// key, for self-referential records that carry their own key.
    pub fn insert_with<F: Fn(Key) -> T>(&mut self, f: F) -> (key: Key)
        requires
            old(self).next_key() < usize::MAX,
            call_requires(f, (Key(old(self).next_key() as usize),)),
        ensures
            key.0 == old(self).next_key(),
            final(self).next_key() == old(self).next_key() + 1,
            final(self)@.dom() == old(self)@.dom().insert(key.0 as nat),
            final(self)@ == old(self)@.insert(key.0 as nat, final(self)@[key.0 as nat]),
            call_ensures(f, (key,), final(self)@[key.0 as nat]),
    {
        let next = if self.uid < self.slots.len() {
            self.slots.len()
        } else {
            self.uid
        };
        let v = f(Key(next));
        let key = self.insert(v);
        proof {
            assert(final(self)@.dom() =~= old(self)@.dom().insert(key.0 as nat));
        }
        key
    }

    /// Replace the value under an existing key.
    pub fn set(&mut self, key: Key, v: T)
        requires
            old(self)@.dom().contains(key.0 as nat),
        ensures
            final(self)@ == old(self)@.insert(key.0 as nat, v),
            final(self).next_key() == old(self).next_key(),
    {
        self.slots[key.0] = Some(v);
        proof {
            assert(self@ =~= old(self)@.insert(key.0 as nat, v));
        }
    }

    /// Move the mint counter forward, so that keys issued by a nested
    /// arena in the meantime are never reissued by this one.
    pub fn advance_to(&mut self, next: usize)
        requires
            old(self).next_key() <= next,
        ensures
            final(self)@ == old(self)@,
            final(self).next_key() == next,
    {
        self.uid = next;
    }

    /// The pairs the arena holds, in increasing key order.
    pub fn iter(&self) -> (r: Vec<(Key, &T)>)
        ensures
            forall|j: int|
                0 <= j < r@.len() ==> {
                    &&& self@.dom().contains(#[trigger] r@[j].0.0 as nat)
                    &&& *r@[j].1 == self@[r@[j].0.0 as nat]
                },
            forall|k: nat| self@.dom().contains(k) ==> exists|j: int|
                0 <= j < r@.len() && (#[trigger] r@[j].0.0) as nat == k,
            forall|j1: int, j2: int|
                0 <= j1 < j2 < r@.len() ==> (#[trigger] r@[j1].0.0) < (#[trigger] r@[j2].0.0),
    {
        let mut r: Vec<(Key, &T)> = Vec::new();
        let mut i: usize = 0;
        while i < self.slots.len()
            invariant
                i <= self.slots@.len(),
                forall|j: int|
                    0 <= j < r@.len() ==> {
                        &&& self@.dom().contains(#[trigger] r@[j].0.0 as nat)
                        &&& *r@[j].1 == self@[r@[j].0.0 as nat]
                        &&& r@[j].0.0 < i
                    },
                forall|k: nat| self@.dom().contains(k) && k < i ==> exists|j: int|
                    0 <= j < r@.len() && (#[trigger] r@[j].0.0) as nat == k,
                forall|j1: int, j2: int|
                    0 <= j1 < j2 < r@.len() ==> (#[trigger] r@[j1].0.0) < (#[trigger] r@[j2].0.0),
            decreases self.slots@.len() - i,
        {
            let ghost r0 = r@;
            match &self.slots[i] {
                Some(v) => {
                    r.push((Key(i), v));
                },
                None => {},
            }
            proof {
                assert forall|k: nat| self@.dom().contains(k) && k < i + 1 implies exists|j: int|
                    0 <= j < r@.len() && (#[trigger] r@[j].0.0) as nat == k by {
                    if k < i {
                        let j = choose|j: int|
                            0 <= j < r0.len() && (#[trigger] r0[j].0.0) as nat == k;
                        assert(r@[j].0.0 as nat == k);
                    } else {
                        assert(r@[r@.len() - 1].0.0 as nat == k);
                    }
                }
            }
            i = i + 1;
        }
        r
    }

    /// Rebuild the arena with every value transformed by `f`, keeping the
    /// key space intact; used to lift an arena across typestates.
    pub fn map<U, F: Fn(T) -> U>(self, f: F) -> (r: Arena<U>)
        requires
            forall|k: nat| self@.dom().contains(k) ==> call_requires(f, (self@[k],)),
        ensures
            r.next_key() == self.next_key(),
            r@.dom() == self@.dom(),
            forall|k: nat| self@.dom().contains(k) ==> call_ensures(
                f,
                (self@[k],),
                #[trigger] r@[k],
            ),
    {
        let Arena { mut slots, uid } = self;
        let ghost orig = slots@;
        let mut out: Vec<Option<U>> = Vec::new();
        while slots.len() > 0
            invariant
                slots@.len() + out@.len() == orig.len(),
                slots@ == orig.subrange(out@.len() as int, orig.len() as int),
                forall|k: nat| self@.dom().contains(k) ==> call_requires(f, (self@[k],)),
                self.slots@ == orig,
                forall|i: int|
                    0 <= i < out@.len() ==> (#[trigger] out@[i] is Some) == (orig[i] is Some),
                forall|i: int|
                    0 <= i < out@.len() && orig[i] is Some ==> call_ensures(
                        f,
                        (orig[i]->0,),
                        (#[trigger] out@[i])->0,
                    ),
            decreases slots@.len(),
        {
            proof {
                assert(slots@[0] == orig[out@.len() as int]);
            }
            let x = slots.remove(0);
            match x {
                Some(v) => {
                    proof {
                        assert(self@.dom().contains(out@.len() as nat));
                        assert(self@[out@.len() as nat] == v);
                    }
                    out.push(Some(f(v)));
                },
                None => {
                    out.push(None);
                },
            }
            proof {
                assert(slots@ =~= orig.subrange(out@.len() as int, orig.len() as int));
            }
        }
        let r = Arena { slots: out, uid };
        proof {
            assert(r@.dom() =~= self@.dom());
        }
        r
    }
}

impl<T> View for SecondaryArena<T> {
    type V = Map<nat, T>;

    closed spec fn view(&self) -> Map<nat, T> {
        Map::new(
            |k: nat| k < self.slots@.len() && self.slots@[k as int] is Some,
            |k: nat| self.slots@[k as int]->0,
        )
    }
}

/// A value held by a [`SecondaryArena`] is structurally smaller than the
/// arena itself, so a specification function may recurse from an arena
/// into its entries.
pub broadcast proof fn lemma_secondary_index_decreases<T>(sa: SecondaryArena<T>, k: nat)
    requires
        sa@.dom().contains(k),
    ensures
        #[trigger] (decreases_to!(sa => sa@[k])),
{
    broadcast use vstd::std_specs::vec::axiom_vec_decreases_to_view;

    assert(decreases_to!(sa => sa.slots));
    assert(decreases_to!(sa.slots@ => sa.slots@[k as int]));
    assert(sa@[k] == sa.slots@[k as int]->0);
    assert(decreases_to!(sa.slots@[k as int] => sa.slots@[k as int]->0));
}

impl<T> SecondaryArena<T> {
    /// An empty overlay.
    pub fn new() -> (r: Self)
        ensures
            r@ == Map::<nat, T>::empty(),
    {
        let r = SecondaryArena { slots: Vec::new() };
        proof {
            assert(r@ =~= Map::<nat, T>::empty());
        }
        r
    }

    pub fn get(&self, key: Key) -> (r: Option<&T>)
        ensures
            match r {
                Some(v) => self@.dom().contains(key.0 as nat) && *v == self@[key.0 as nat],
                None => !self@.dom().contains(key.0 as nat),
            },
    {
        if key.0 < self.slots.len() {
            match &self.slots[key.0] {
                Some(v) => Some(v),
                None => None,
            }
        } else {
            None
        }
    }

    /// Store `v` under a key minted by the paired primary arena.
    pub fn insert(&mut self, key: Key, v: T)
        requires
            key.0 < usize::MAX,
        ensures
            final(self)@ == old(self)@.insert(key.0 as nat, v),
    {
        while self.slots.len() <= key.0
            invariant
                key.0 < usize::MAX,
                self.slots@ == old(self).slots@ + Seq::new(
                    (self.slots@.len() - old(self).slots@.len()) as nat,
                    |i: int| None::<T>,
                ),
            decreases key.0 + 1 - self.slots.len(),
        {
            self.slots.push(None);
        }
        self.slots[key.0] = Some(v);
        proof {
            assert(self@ =~= old(self)@.insert(key.0 as nat, v));
        }
    }

    /// The pairs the overlay holds, in increasing key order.
    pub fn iter(&self) -> (r: Vec<(Key, &T)>)
        ensures
            forall|j: int|
                0 <= j < r@.len() ==> {
                    &&& self@.dom().contains(#[trigger] r@[j].0.0 as nat)
                    &&& *r@[j].1 == self@[r@[j].0.0 as nat]
                },
            forall|k: nat| self@.dom().contains(k) ==> exists|j: int|
                0 <= j < r@.len() && (#[trigger] r@[j].0.0) as nat == k,
            forall|j1: int, j2: int|
                0 <= j1 < j2 < r@.len() ==> (#[trigger] r@[j1].0.0) < (#[trigger] r@[j2].0.0),
    {
        let mut r: Vec<(Key, &T)> = Vec::new();
        let mut i: usize = 0;
        while i < self.slots.len()
            invariant
                i <= self.slots@.len(),
                forall|j: int|
                    0 <= j < r@.len() ==> {
                        &&& self@.dom().contains(#[trigger] r@[j].0.0 as nat)
                        &&& *r@[j].1 == self@[r@[j].0.0 as nat]
                        &&& r@[j].0.0 < i
                    },
                forall|k: nat| self@.dom().contains(k) && k < i ==> exists|j: int|
                    0 <= j < r@.len() && (#[trigger] r@[j].0.0) as nat == k,
                forall|j1: int, j2: int|
                    0 <= j1 < j2 < r@.len() ==> (#[trigger] r@[j1].0.0) < (#[trigger] r@[j2].0.0),
            decreases self.slots@.len() - i,
        {
            let ghost r0 = r@;
            match &self.slots[i] {
                Some(v) => {
                    r.push((Key(i), v));
                },
                None => {},
            }
            proof {
                assert forall|k: nat| self@.dom().contains(k) && k < i + 1 implies exists|j: int|
                    0 <= j < r@.len() && (#[trigger] r@[j].0.0) as nat == k by {
                    if k < i {
                        let j = choose|j: int|
                            0 <= j < r0.len() && (#[trigger] r0[j].0.0) as nat == k;
                        assert(r@[j].0.0 as nat == k);
                    } else {
                        assert(r@[r@.len() - 1].0.0 as nat == k);
                    }
                }
            }
            i = i + 1;
        }
        r
    }

    /// Rebuild the overlay with every value transformed by `f`, keeping the
    /// key space intact.
    pub fn map<U, F: Fn(T) -> U>(self, f: F) -> (r: SecondaryArena<U>)
        requires
            forall|k: nat| self@.dom().contains(k) ==> call_requires(f, (self@[k],)),
        ensures
            r@.dom() == self@.dom(),
            forall|k: nat| self@.dom().contains(k) ==> call_ensures(
                f,
                (self@[k],),
                #[trigger] r@[k],
            ),
    {
        let SecondaryArena { mut slots } = self;
        let ghost orig = slots@;
        let mut out: Vec<Option<U>> = Vec::new();
        while slots.len() > 0
            invariant
                slots@.len() + out@.len() == orig.len(),
                slots@ == orig.subrange(out@.len() as int, orig.len() as int),
                forall|k: nat| self@.dom().contains(k) ==> call_requires(f, (self@[k],)),
                self.slots@ == orig,
                forall|i: int|
                    0 <= i < out@.len() ==> (#[trigger] out@[i] is Some) == (orig[i] is Some),
                forall|i: int|
                    0 <= i < out@.len() && orig[i] is Some ==> call_ensures(
                        f,
                        (orig[i]->0,),
                        (#[trigger] out@[i])->0,
                    ),
            decreases slots@.len(),
        {
            proof {
                assert(slots@[0] == orig[out@.len() as int]);
            }
            let x = slots.remove(0);
            match x {
                Some(v) => {
                    proof {
                        assert(self@.dom().contains(out@.len() as nat));
                        assert(self@[out@.len() as nat] == v);
                    }
                    out.push(Some(f(v)));
                },
                None => {
                    out.push(None);
                },
            }
            proof {
                assert(slots@ =~= orig.subrange(out@.len() as int, orig.len() as int));
            }
        }
        let r = SecondaryArena { slots: out };
        proof {
            assert(r@.dom() =~= self@.dom());
        }
        r
    }
}

} // verus!
