//! The whole run, end to end: read the declared length, walk the chain,
//! stage the flag mutations, and issue the verification call against the
//! staged view of the store.

use crate::addressing::slot_value;
use crate::errors::SolveError;
use crate::mutation::stage_all;
use crate::store::{Overlay, WordStore};
use crate::traversal::{
    chain_key, chain_slot, chain_word, good_step, live_prefix, step_readable, traverse, wf_chain,
};
use crate::verification::{encode_solved_query, interpret_outcome, CallOutcome};
use crate::word::{lemma_canonical, word_of, Word256};
use vstd::prelude::*;

verus! {

/// The fixed slot holding the expected node count.
pub const TOTAL_LENGTH_SLOT: u64 = 4;

/// The fixed logical slot of the node mapping, hashed with each key.
pub const MAPPING_BASE_SLOT: u64 = 2;

/// Whoever can run the verification call against a staged view of the store:
/// the simulated execution environment in production, a stand-in in tests.
pub trait CallExecutor<S: WordStore> {
    fn execute(&mut self, store: &Overlay<S>, payload: &Vec<u8>) -> Result<CallOutcome, SolveError>;
}

/// Step `i` of the walk lands on the same key over two stores that hold the
/// same words.
proof fn lemma_chain_key_congruence<A: WordStore, B: WordStore>(
    a: &A,
    b: &B,
    base: Word256,
    i: nat,
)
    requires
        forall|s: nat| #[trigger] a.word_at(s) == b.word_at(s),
    ensures
        chain_key(a, base, i) == chain_key(b, base, i),
    decreases i,
{
    if i > 0 {
        lemma_chain_key_congruence(a, b, base, (i - 1) as nat);
    }
}

/// Two stores holding the same words with the same readable slots make the
/// same walk: every step agrees, and so does well-formedness at any length.
proof fn lemma_chain_congruence<A: WordStore, B: WordStore>(a: &A, b: &B, base: Word256)
    requires
        forall|s: nat| #[trigger] a.word_at(s) == b.word_at(s),
        forall|s: nat| #[trigger] a.read_ok(s) == b.read_ok(s),
    ensures
        forall|i: nat| #[trigger] chain_key(a, base, i) == chain_key(b, base, i),
        forall|i: nat| #[trigger] chain_slot(a, base, i) == chain_slot(b, base, i),
        forall|i: nat| #[trigger] chain_word(a, base, i) == chain_word(b, base, i),
        forall|i: nat| #[trigger] step_readable(a, base, i) == step_readable(b, base, i),
        forall|i: nat| #[trigger] good_step(a, base, i) == good_step(b, base, i),
        forall|n: nat| #[trigger] live_prefix(a, base, n) == live_prefix(b, base, n),
        forall|n: nat| #[trigger] wf_chain(a, base, n) == wf_chain(b, base, n),
{
    assert forall|i: nat| #[trigger] chain_key(a, base, i) == chain_key(b, base, i) by {
        lemma_chain_key_congruence(a, b, base, i);
    }
    assert forall|i: nat| #[trigger] good_step(a, base, i) == good_step(b, base, i) by {
        lemma_chain_key_congruence(a, b, base, i);
        lemma_chain_key_congruence(a, b, base, i + 1);
    }
    assert forall|n: nat| #[trigger] live_prefix(a, base, n) == live_prefix(b, base, n) by {
        if live_prefix(a, base, n) {
            assert forall|j: nat| j < n implies #[trigger] good_step(b, base, j) by {
                assert(good_step(a, base, j));
            }
        }
        if live_prefix(b, base, n) {
            assert forall|j: nat| j < n implies #[trigger] good_step(a, base, j) by {
                assert(good_step(b, base, j));
            }
        }
    }
}

/// Run the whole pipeline against a store: read the declared length from its
/// fixed slot, traverse the chain, stage the flag mutation of every visited
/// node, and issue the verification call over the staged view. The boolean
/// result is the call's verdict as `interpret_outcome` reads it.
///
/// Fails with a store fault when the length slot or a chain slot cannot be
/// read (or the call transport itself fails), and reports a malformed chain
/// when the declared length does not fit a machine word or the chain does
/// not match it; the verification call is then never issued.
pub fn solve<S: WordStore, E: CallExecutor<S>>(store: S, executor: &mut E) -> (r: Result<
    bool,
    SolveError,
>)
    ensures
        r matches Ok(_) ==> store.read_ok(TOTAL_LENGTH_SLOT as nat) && store.word_at(
            TOTAL_LENGTH_SLOT as nat,
        ) < 0x1_0000_0000_0000_0000 && wf_chain(
            &store,
            word_of(MAPPING_BASE_SLOT as nat),
            store.word_at(TOTAL_LENGTH_SLOT as nat),
        ),
        !store.read_ok(TOTAL_LENGTH_SLOT as nat) ==> r matches Err(SolveError::StoreAccess),
        r matches Err(SolveError::MalformedChain { .. }) ==> store.read_ok(
            TOTAL_LENGTH_SLOT as nat,
        ) && (store.word_at(TOTAL_LENGTH_SLOT as nat) >= 0x1_0000_0000_0000_0000 || !wf_chain(
            &store,
            word_of(MAPPING_BASE_SLOT as nat),
            store.word_at(TOTAL_LENGTH_SLOT as nat),
        )),
        store.read_ok(TOTAL_LENGTH_SLOT as nat) && store.word_at(TOTAL_LENGTH_SLOT as nat)
            >= 0x1_0000_0000_0000_0000 ==> r matches Err(SolveError::MalformedChain { .. }),
        r matches Err(SolveError::StoreAccess) ==> !store.read_ok(TOTAL_LENGTH_SLOT as nat) || (
        exists|j: nat|
            j <= store.word_at(TOTAL_LENGTH_SLOT as nat) && #[trigger] live_prefix(
                &store,
                word_of(MAPPING_BASE_SLOT as nat),
                j,
            ) && !step_readable(&store, word_of(MAPPING_BASE_SLOT as nat), j)) || wf_chain(
            &store,
            word_of(MAPPING_BASE_SLOT as nat),
            store.word_at(TOTAL_LENGTH_SLOT as nat),
        ),
        (r matches Err(SolveError::MalformedChain { visited: vs }) ==> (if store.word_at(
            TOTAL_LENGTH_SLOT as nat,
        ) < 0x1_0000_0000_0000_0000 {
            vs@.len() <= store.word_at(TOTAL_LENGTH_SLOT as nat) && (forall|k: int|
                0 <= k < vs@.len() ==> (#[trigger] vs@[k]).value() == chain_key(
                    &store,
                    word_of(MAPPING_BASE_SLOT as nat),
                    k as nat,
                ))
        } else {
            vs@.len() == 0
        })),
        !(r matches Err(SolveError::EncodingRange)),
        store.read_ok(TOTAL_LENGTH_SLOT as nat) && store.word_at(TOTAL_LENGTH_SLOT as nat)
            < 0x1_0000_0000_0000_0000 && wf_chain(
            &store,
            word_of(MAPPING_BASE_SLOT as nat),
            store.word_at(TOTAL_LENGTH_SLOT as nat),
        ) ==> (r matches Ok(_) || r matches Err(SolveError::StoreAccess)),
{
    let ghost st = store;
    let overlay = Overlay::new(store);
    let ghost bw = word_of(MAPPING_BASE_SLOT as nat);
    proof {
        lemma_chain_congruence(&overlay, &st, bw);
    }
    let total_slot = Word256::from_u64(TOTAL_LENGTH_SLOT);
    let total_word = match overlay.read(&total_slot) {
        Ok(w) => w,
        Err(e) => {
            return Err(e);
        },
    };
    if total_word.l1 != 0 || total_word.l2 != 0 || total_word.l3 != 0 {
        proof {
            assert(total_word.value() >= 0x1_0000_0000_0000_0000) by {
                if total_word.l1 >= 1 {
                    assert(total_word.l1 as int * 0x1_0000_0000_0000_0000
                        >= 0x1_0000_0000_0000_0000);
                }
                if total_word.l2 >= 1 {
                    assert(total_word.l2 as int * 0x1_0000_0000_0000_0000_0000_0000_0000_0000int
                        >= 0x1_0000_0000_0000_0000_0000_0000_0000_0000int);
                }
                if total_word.l3 >= 1 {
                    assert(total_word.l3 as int
                        * 0x1_0000_0000_0000_0000_0000_0000_0000_0000_0000_0000_0000_0000int
                        >= 0x1_0000_0000_0000_0000_0000_0000_0000_0000_0000_0000_0000_0000int);
                }
            }
        }
        return Err(SolveError::MalformedChain { visited: Vec::new() });
    }
    let total: u64 = total_word.l0;
    proof {
        assert(total as nat == st.word_at(TOTAL_LENGTH_SLOT as nat));
    }
    let base = Word256::from_u64(MAPPING_BASE_SLOT);
    let visited = match traverse(&overlay, &base, total) {
        Ok(v) => v,
        Err(e) => match e {
            SolveError::StoreAccess => {
                proof {
                    let j = choose|j: nat|
                        j <= total && #[trigger] live_prefix(&overlay, base, j) && !step_readable(
                            &overlay,
                            base,
                            j,
                        );
                    assert(live_prefix(&st, bw, j) && !step_readable(&st, bw, j));
                }
                return Err(SolveError::StoreAccess);
            },
            SolveError::MalformedChain { visited: vs } => {
                proof {
                    assert(!wf_chain(&overlay, bw, total as nat));
                    assert forall|k: int| 0 <= k < vs@.len() implies (#[trigger] vs@[k]).value()
                        == chain_key(&st, bw, k as nat) by {
                        assert(vs@[k].value() == chain_key(&overlay, bw, k as nat));
                    }
                }
                return Err(SolveError::MalformedChain { visited: vs });
            },
            SolveError::EncodingRange => {
                proof {
                    assert(false);
                }
                return Err(SolveError::EncodingRange);
            },
        },
    };
    proof {
        assert(wf_chain(&overlay, bw, total as nat));
    }
    let mut overlay = overlay;
    let ghost ov0 = overlay;
    proof {
        assert forall|k: int| 0 <= k < visited@.len() implies ov0.read_ok(
            #[trigger] slot_value(visited@[k], base),
        ) by {
            lemma_canonical(visited@[k]);
            assert(good_step(&ov0, bw, k as nat));
            assert(slot_value(visited@[k], base) == chain_slot(&ov0, bw, k as nat));
        }
    }
    match stage_all(&mut overlay, &visited, &base) {
        Ok(_) => {},
        Err(_) => {
            proof {
                assert(false);
            }
            return Err(SolveError::StoreAccess);
        },
    }
    let payload = encode_solved_query(&visited);
    let outcome = match executor.execute(&overlay, &payload) {
        Ok(o) => o,
        Err(_) => {
            return Err(SolveError::StoreAccess);
        },
    };
    Ok(interpret_outcome(&outcome))
}

} // verus!
