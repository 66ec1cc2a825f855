//! The traversal engine: walk the linked structure from the root key, pick
//! each next key by the parity rule, and stop at the zero terminator.

use crate::addressing::{compute_slot, slot_value};
use crate::codec::{decode, medium_of, short_of};
use crate::errors::SolveError;
use crate::store::WordStore;
use crate::word::{word_of, Word256};
use vstd::prelude::*;

verus! {

/// The key a node's word points at: the short field when it is even, the
/// medium field otherwise.
pub open spec fn next_key_value(w: nat) -> nat {
    if short_of(w) % 2 == 0 {
        short_of(w)
    } else {
        medium_of(w)
    }
}

/// The key visited at step `i` of the walk: the root key is zero, and every
/// later key is read out of the word at the previous key's slot.
pub open spec fn chain_key<S: WordStore>(store: &S, base: Word256, i: nat) -> nat
    decreases i,
{
    if i == 0 {
        0
    } else {
        next_key_value(
            store.word_at(slot_value(word_of(chain_key(store, base, (i - 1) as nat)), base)),
        )
    }
}

/// The physical slot read at step `i`.
pub open spec fn chain_slot<S: WordStore>(store: &S, base: Word256, i: nat) -> nat {
    slot_value(word_of(chain_key(store, base, i)), base)
}

/// The word found at step `i`.
pub open spec fn chain_word<S: WordStore>(store: &S, base: Word256, i: nat) -> nat {
    store.word_at(chain_slot(store, base, i))
}

/// Whether the read at step `i` can succeed.
pub open spec fn step_readable<S: WordStore>(store: &S, base: Word256, i: nat) -> bool {
    store.read_ok(chain_slot(store, base, i))
}

/// Step `i` is readable, holds a node, and moves to a different key.
pub open spec fn good_step<S: WordStore>(store: &S, base: Word256, i: nat) -> bool {
    &&& step_readable(store, base, i)
    &&& chain_word(store, base, i) != 0
    &&& chain_key(store, base, (i + 1) as nat) != chain_key(store, base, i)
}

/// The first `n` steps of the walk all succeed and keep moving.
pub open spec fn live_prefix<S: WordStore>(store: &S, base: Word256, n: nat) -> bool {
    forall|j: nat| j < n ==> #[trigger] good_step(store, base, j)
}

/// A well-formed chain of exactly `n` nodes: `n` live steps, then a readable
/// zero terminator.
pub open spec fn wf_chain<S: WordStore>(store: &S, base: Word256, n: nat) -> bool {
    &&& live_prefix(store, base, n)
    &&& step_readable(store, base, n)
    &&& chain_word(store, base, n) == 0
}

/// Walk the chain from the root key, expecting exactly `total` nodes.
///
/// Succeeds exactly on a well-formed chain of `total` nodes, returning the
/// visited keys in order. A failed read aborts with a store fault; a chain
/// that terminates early, loops on itself, or outruns `total` is malformed,
/// and the keys visited before the defect are reported with it.
pub fn traverse<S: WordStore>(store: &S, base: &Word256, total: u64) -> (r: Result<
    Vec<Word256>,
    SolveError,
>)
    ensures
        (r matches Ok(_)) <==> wf_chain(store, *base, total as nat),
        (r matches Ok(v) ==> v@.len() == total && forall|k: int|
            0 <= k < total as int ==> (#[trigger] v@[k]).value() == chain_key(
                store,
                *base,
                k as nat,
            )),
        (r matches Err(e) ==> match e {
            SolveError::StoreAccess => exists|j: nat|
                j <= total && #[trigger] live_prefix(store, *base, j) && !step_readable(
                    store,
                    *base,
                    j,
                ),
            SolveError::MalformedChain { visited: vs } => {
                &&& vs@.len() <= total
                &&& (forall|k: int|
                    0 <= k < vs@.len() ==> (#[trigger] vs@[k]).value() == chain_key(
                        store,
                        *base,
                        k as nat,
                    ))
                &&& ({
                    ||| (exists|j: nat|
                        j < total && #[trigger] live_prefix(store, *base, j) && step_readable(
                            store,
                            *base,
                            j,
                        ) && chain_word(store, *base, j) == 0 && vs@.len() == j)
                    ||| (exists|j: nat|
                        j < total && #[trigger] live_prefix(store, *base, j) && step_readable(
                            store,
                            *base,
                            j,
                        ) && chain_word(store, *base, j) != 0 && chain_key(store, *base, j + 1)
                            == chain_key(store, *base, j) && vs@.len() == j + 1)
                    ||| (live_prefix(store, *base, total as nat) && step_readable(
                        store,
                        *base,
                        total as nat,
                    ) && chain_word(store, *base, total as nat) != 0 && vs@.len() == total)
                })
            },
            SolveError::EncodingRange => false,
        }),
{
    let ghost bs = *base;
    let mut visited: Vec<Word256> = Vec::new();
    let mut current = Word256::zero();
    let mut i: u64 = 0;
    while i < total
        invariant
            i <= total,
            bs == *base,
            visited@.len() == i as int,
            current == word_of(chain_key(store, bs, i as nat)),
            current.value() == chain_key(store, bs, i as nat),
            live_prefix(store, bs, i as nat),
            forall|k: int|
                0 <= k < i as int ==> (#[trigger] visited@[k]).value() == chain_key(
                    store,
                    bs,
                    k as nat,
                ),
        decreases total - i,
    {
        let slot = compute_slot(&current, base);
        proof {
            assert(slot.value() == chain_slot(store, bs, i as nat));
        }
        let word = match store.read(&slot) {
            Ok(w) => w,
            Err(_) => {
                proof {
                    assert(live_prefix(store, bs, i as nat) && !step_readable(
                        store,
                        bs,
                        i as nat,
                    ));
                    if wf_chain(store, bs, total as nat) {
                        assert(good_step(store, bs, i as nat));
                    }
                }
                return Err(SolveError::StoreAccess);
            },
        };
        if word.is_zero() {
            proof {
                assert(chain_word(store, bs, i as nat) == 0);
                if wf_chain(store, bs, total as nat) {
                    assert(good_step(store, bs, i as nat));
                }
            }
            return Err(SolveError::MalformedChain { visited });
        }
        let rec = decode(&word);
        visited.push(current);
        let next = if rec.short_field % 2 == 0 {
            Word256::from_u64(rec.short_field)
        } else {
            rec.medium_field
        };
        proof {
            assert(chain_key(store, bs, i as nat + 1) == next_key_value(
                store.word_at(slot_value(word_of(chain_key(store, bs, i as nat)), bs)),
            ));
            assert(next.value() == chain_key(store, bs, i as nat + 1));
            assert(next == word_of(chain_key(store, bs, i as nat + 1)));
        }
        if next.l0 == current.l0 && next.l1 == current.l1 && next.l2 == current.l2 && next.l3
            == current.l3 {
            proof {
                assert(chain_key(store, bs, i as nat + 1) == chain_key(store, bs, i as nat));
                assert(live_prefix(store, bs, i as nat) && step_readable(store, bs, i as nat)
                    && chain_word(store, bs, i as nat) != 0);
                if wf_chain(store, bs, total as nat) {
                    assert(good_step(store, bs, i as nat));
                }
            }
            return Err(SolveError::MalformedChain { visited });
        }
        proof {
            if chain_key(store, bs, i as nat + 1) == chain_key(store, bs, i as nat) {
                assert(next == current);
            }
            assert(good_step(store, bs, i as nat));
            assert forall|j: nat| j < i as nat + 1 implies #[trigger] good_step(
                store,
                bs,
                j,
            ) by {
                if j < i as nat {
                    assert(good_step(store, bs, j));
                }
            }
        }
        current = next;
        i = i + 1;
    }
    let slot = compute_slot(&current, base);
    proof {
        assert(slot.value() == chain_slot(store, bs, total as nat));
    }
    match store.read(&slot) {
        Err(_) => {
            proof {
                assert(live_prefix(store, bs, total as nat) && !step_readable(
                    store,
                    bs,
                    total as nat,
                ));
            }
            Err(SolveError::StoreAccess)
        },
        Ok(w) => {
            if w.is_zero() {
                proof {
                    assert(wf_chain(store, bs, total as nat));
                }
                Ok(visited)
            } else {
                proof {
                    assert(chain_word(store, bs, total as nat) != 0);
                }
                Err(SolveError::MalformedChain { visited })
            }
        },
    }
}

/// The keys a full walk of a well-formed chain of `n` nodes visits, in order.
pub open spec fn chain_keys<S: WordStore>(store: &S, base: Word256, n: nat) -> Seq<nat> {
    Seq::new(n, |i: int| chain_key(store, base, i as nat))
}

/// One repeated key makes the whole walk repeat in step behind it.
proof fn lemma_chain_shift<S: WordStore>(store: &S, base: Word256, i: nat, j: nat, m: nat)
    requires
        chain_key(store, base, i) == chain_key(store, base, j),
    ensures
        chain_key(store, base, i + m) == chain_key(store, base, j + m),
    decreases m,
{
    if m > 0 {
        lemma_chain_shift(store, base, i, j, (m - 1) as nat);
        assert(chain_key(store, base, i + m) == next_key_value(
            store.word_at(slot_value(word_of(chain_key(store, base, (i + m - 1) as nat)), base)),
        ));
        assert(chain_key(store, base, j + m) == next_key_value(
            store.word_at(slot_value(word_of(chain_key(store, base, (j + m - 1) as nat)), base)),
        ));
    }
}

/// No key repeats on a well-formed chain: a repeated key would make the walk
/// periodic past it, so every later step would land on a node already seen to
/// hold a nonzero word, and the zero terminator the chain owes at step `n`
/// could never be reached.
pub proof fn lemma_chain_keys_distinct<S: WordStore>(
    store: &S,
    base: Word256,
    n: nat,
    i: nat,
    j: nat,
)
    requires
        wf_chain(store, base, n),
        i < j < n,
    ensures
        chain_key(store, base, i) != chain_key(store, base, j),
{
    if chain_key(store, base, i) == chain_key(store, base, j) {
        lemma_chain_shift(store, base, i, j, (n - j) as nat);
        let q: nat = (i + (n - j)) as nat;
        assert(chain_key(store, base, q) == chain_key(store, base, n));
        assert(good_step(store, base, q));
        assert(chain_slot(store, base, q) == chain_slot(store, base, n));
        assert(chain_word(store, base, q) == chain_word(store, base, n));
        assert(false);
    }
}

/// A full walk of a well-formed chain of `n` nodes visits exactly `n` keys
/// and repeats none of them: any visited sequence that matches the chain keys
/// (as a successful traversal's must) holds `n` pairwise distinct words.
pub proof fn lemma_visited_distinct<S: WordStore>(
    store: &S,
    base: Word256,
    n: nat,
    v: Seq<Word256>,
)
    requires
        wf_chain(store, base, n),
        v.len() == n,
        forall|k: int| 0 <= k < n ==> (#[trigger] v[k]).value() == chain_key(store, base, k as nat),
    ensures
        chain_keys(store, base, n).len() == n,
        forall|k: int| 0 <= k < n ==> (#[trigger] v[k]).value() == chain_keys(store, base, n)[k],
        forall|i: nat, j: nat|
            i < j < n ==> #[trigger] chain_key(store, base, i) != #[trigger] chain_key(
                store,
                base,
                j,
            ),
        forall|i: int, j: int| 0 <= i < j < n ==> v[i] != v[j],
{
    assert forall|i: nat, j: nat|
        i < j < n implies #[trigger] chain_key(store, base, i) != #[trigger] chain_key(
        store,
        base,
        j,
    ) by {
        lemma_chain_keys_distinct(store, base, n, i, j);
    }
    assert forall|i: int, j: int| 0 <= i < j < n implies v[i] != v[j] by {
        assert(chain_key(store, base, i as nat) != chain_key(store, base, j as nat));
    }
}

} // verus!
