//! The word store: a key-addressed store of 256-bit words, an in-memory
//! implementation of it, and a staged-write overlay that lets mutations be
//! read back without touching the store underneath.

use crate::errors::SolveError;
use crate::word::{lemma_value_injective, Word256};
use vstd::prelude::*;

verus! {

/// Read access to a store of 256-bit words addressed by 256-bit slots.
///
/// `word_at` is the store's content model (absent slots read as zero), and
/// `read_ok` says which slots can be read at all.
pub trait WordStore: Sized {
    open spec fn word_at(&self, slot: nat) -> nat {
        0
    }

    open spec fn read_ok(&self, slot: nat) -> bool {
        true
    }

    fn read(&self, slot: &Word256) -> (r: Result<Word256, SolveError>)
        ensures
            match r {
                Ok(w) => self.read_ok(slot.value()) && w.value() == self.word_at(slot.value()),
                Err(e) => !self.read_ok(slot.value()) && (e matches SolveError::StoreAccess),
            },
    ;
}

/// The value held for `slot` by an association list, later entries winning.
spec fn pairs_get(s: Seq<(Word256, Word256)>, slot: nat) -> Option<nat>
    decreases s.len(),
{
    if s.len() == 0 {
        None
    } else if s.last().0.value() == slot {
        Some(s.last().1.value())
    } else {
        pairs_get(s.drop_last(), slot)
    }
}

/// Whether some word in a list holds the given value.
spec fn in_list(s: Seq<Word256>, slot: nat) -> bool {
    exists|i: int| 0 <= i < s.len() && s[i].value() == slot
}

/// Find `slot` in an association list, scanning the later entries first.
fn pairs_find(entries: &Vec<(Word256, Word256)>, slot: &Word256) -> (r: Option<Word256>)
    ensures
        match r {
            Some(w) => pairs_get(entries@, slot.value()) == Some(w.value()),
            None => pairs_get(entries@, slot.value()) is None,
        },
{
    let mut i: usize = entries.len();
    proof {
        assert(entries@.take(entries@.len() as int) =~= entries@);
    }
    while i > 0
        invariant
            0 <= i <= entries@.len(),
            pairs_get(entries@, slot.value()) == pairs_get(
                entries@.take(i as int),
                slot.value(),
            ),
        decreases i,
    {
        i = i - 1;
        let (k, v) = entries[i];
        proof {
            assert(entries@.take(i as int + 1).drop_last() =~= entries@.take(i as int));
            assert(entries@.take(i as int + 1).last() == entries@[i as int]);
        }
        if k.l0 == slot.l0 && k.l1 == slot.l1 && k.l2 == slot.l2 && k.l3 == slot.l3 {
            return Some(v);
        }
        proof {
            if k.value() == slot.value() {
                lemma_value_injective(k, *slot);
            }
        }
    }
    proof {
        assert(entries@.take(0) =~= Seq::<(Word256, Word256)>::empty());
    }
    None
}

/// An in-memory word store: slots not written read as zero, and chosen slots
/// can be marked unreadable to stand for an environment fault.
pub struct MemStore {
    entries: Vec<(Word256, Word256)>,
    failing: Vec<Word256>,
}

impl MemStore {
    pub fn new() -> (r: MemStore)
        ensures
            forall|s: nat| #[trigger] r.word_at(s) == 0,
            forall|s: nat| #[trigger] r.read_ok(s),
    {
        let r = MemStore { entries: Vec::new(), failing: Vec::new() };
        proof {
            assert(forall|s: nat| pairs_get(r.entries@, s) is None);
        }
        r
    }

    /// Write a word, replacing whatever the slot held.
    pub fn set(&mut self, slot: &Word256, word: &Word256)
        ensures
            final(self).word_at(slot.value()) == word.value(),
            forall|s: nat| s != slot.value() ==> #[trigger] final(self).word_at(s) == old(
                self,
            ).word_at(s),
            forall|s: nat| #[trigger] final(self).read_ok(s) == old(self).read_ok(s),
    {
        self.entries.push((*slot, *word));
        proof {
            assert(self.entries@.drop_last() =~= old(self).entries@);
        }
    }

    /// Mark a slot as failing every read from now on.
    pub fn poison(&mut self, slot: &Word256)
        ensures
            forall|s: nat| #[trigger]
                final(self).read_ok(s) == (old(self).read_ok(s) && s != slot.value()),
            forall|s: nat| #[trigger] final(self).word_at(s) == old(self).word_at(s),
    {
        self.failing.push(*slot);
        proof {
            assert(forall|s: nat|
                in_list(self.failing@, s) == (in_list(old(self).failing@, s) || s
                    == slot.value())) by {
                assert forall|s: nat|
                    in_list(self.failing@, s) == (in_list(old(self).failing@, s) || s
                        == slot.value()) by {
                    if in_list(old(self).failing@, s) {
                        let i = choose|i: int|
                            0 <= i < old(self).failing@.len() && old(self).failing@[i].value() == s;
                        assert(self.failing@[i].value() == s);
                    }
                    if s == slot.value() {
                        assert(self.failing@[self.failing@.len() - 1].value() == s);
                    }
                    if in_list(self.failing@, s) {
                        let i = choose|i: int|
                            0 <= i < self.failing@.len() && self.failing@[i].value() == s;
                        if i < old(self).failing@.len() {
                            assert(old(self).failing@[i].value() == s);
                        }
                    }
                }
            }
        }
    }
}

impl WordStore for MemStore {
    closed spec fn word_at(&self, slot: nat) -> nat {
        match pairs_get(self.entries@, slot) {
            Some(v) => v,
            None => 0,
        }
    }

    closed spec fn read_ok(&self, slot: nat) -> bool {
        !in_list(self.failing@, slot)
    }

    fn read(&self, slot: &Word256) -> (r: Result<Word256, SolveError>) {
        let mut i: usize = 0;
        while i < self.failing.len()
            invariant
                0 <= i <= self.failing@.len(),
                forall|j: int| 0 <= j < i ==> self.failing@[j].value() != slot.value(),
            decreases self.failing@.len() - i,
        {
            let f = self.failing[i];
            if f.l0 == slot.l0 && f.l1 == slot.l1 && f.l2 == slot.l2 && f.l3 == slot.l3 {
                return Err(SolveError::StoreAccess);
            }
            proof {
                if f.value() == slot.value() {
                    lemma_value_injective(f, *slot);
                }
            }
            i = i + 1;
        }
        match pairs_find(&self.entries, slot) {
            Some(w) => Ok(w),
            None => Ok(Word256::zero()),
        }
    }
}

/// A staged-write overlay: reads of a staged slot see the pending word, all
/// other reads fall through to the store underneath, which is never written.
pub struct Overlay<S: WordStore> {
    inner: S,
    staged: Vec<(Word256, Word256)>,
}

impl<S: WordStore> Overlay<S> {
    pub fn new(inner: S) -> (r: Overlay<S>)
        ensures
            forall|s: nat| #[trigger] r.word_at(s) == inner.word_at(s),
            forall|s: nat| #[trigger] r.read_ok(s) == inner.read_ok(s),
    {
        Overlay { inner, staged: Vec::new() }
    }

    /// The store underneath, untouched by staging.
    pub fn inner(&self) -> &S {
        &self.inner
    }

    /// Stage a pending word for a slot; reads through the overlay see it at
    /// once, and the slot can no longer fail to read.
    pub fn stage(&mut self, slot: &Word256, word: &Word256)
        ensures
            final(self).word_at(slot.value()) == word.value(),
            final(self).read_ok(slot.value()),
            forall|s: nat| s != slot.value() ==> #[trigger] final(self).word_at(s) == old(
                self,
            ).word_at(s),
            forall|s: nat| s != slot.value() ==> #[trigger] final(self).read_ok(s) == old(
                self,
            ).read_ok(s),
    {
        self.staged.push((*slot, *word));
        proof {
            assert(self.staged@.drop_last() =~= old(self).staged@);
        }
    }
}

impl<S: WordStore> WordStore for Overlay<S> {
    closed spec fn word_at(&self, slot: nat) -> nat {
        match pairs_get(self.staged@, slot) {
            Some(v) => v,
            None => self.inner.word_at(slot),
        }
    }

    closed spec fn read_ok(&self, slot: nat) -> bool {
        pairs_get(self.staged@, slot) is Some || self.inner.read_ok(slot)
    }

    fn read(&self, slot: &Word256) -> (r: Result<Word256, SolveError>) {
        match pairs_find(&self.staged, slot) {
            Some(w) => Ok(w),
            None => self.inner.read(slot),
        }
    }
}

} // verus!
