//! Mutation and staging: for every visited key, set the flag bit of its node
//! word — fields untouched — and stage the new word against its slot.

use crate::addressing::{compute_slot, slot_value};
use crate::codec::{decode, encode_with_flag_set, flagged, lemma_mutation_idempotent};
use crate::errors::SolveError;
use crate::store::{Overlay, WordStore};
use crate::word::Word256;
use vstd::prelude::*;

verus! {

/// Whether some key in the list addresses the given physical slot.
pub open spec fn touches(keys: Seq<Word256>, base: Word256, s: nat) -> bool {
    exists|k: int| 0 <= k < keys.len() && slot_value(keys[k], base) == s
}

/// Taking one more key into the prefix touches exactly the slots touched
/// before plus that key's own slot.
proof fn lemma_touches_push(keys: Seq<Word256>, base: Word256, i: int)
    requires
        0 <= i < keys.len(),
    ensures
        forall|s: nat|
            #[trigger] touches(keys.take(i + 1), base, s) == (touches(keys.take(i), base, s)
                || slot_value(keys[i], base) == s),
{
    assert forall|s: nat|
        #[trigger] touches(keys.take(i + 1), base, s) == (touches(keys.take(i), base, s)
            || slot_value(keys[i], base) == s) by {
        if touches(keys.take(i + 1), base, s) {
            let k = choose|k: int|
                0 <= k < keys.take(i + 1).len() && (#[trigger] slot_value(
                    keys.take(i + 1)[k],
                    base,
                )) == s;
            if k < i {
                assert(slot_value(keys.take(i)[k], base) == s);
            } else {
                assert(slot_value(keys[i], base) == s);
            }
        }
        if touches(keys.take(i), base, s) {
            let k = choose|k: int|
                0 <= k < keys.take(i).len() && (#[trigger] slot_value(keys.take(i)[k], base))
                    == s;
            assert(slot_value(keys.take(i + 1)[k], base) == s);
        }
        if slot_value(keys[i], base) == s {
            assert(slot_value(keys.take(i + 1)[i], base) == s);
        }
    }
}

/// Rewrite one node: read its word through the overlay, force the flag on,
/// and stage the result against the node's slot. Nothing else moves.
fn stage_one<S: WordStore>(overlay: &mut Overlay<S>, key: &Word256, base: &Word256) -> (r: Result<
    (),
    SolveError,
>)
    ensures
        r matches Ok(_) ==> final(overlay).word_at(slot_value(*key, *base)) == flagged(
            old(overlay).word_at(slot_value(*key, *base)),
        ) && final(overlay).read_ok(slot_value(*key, *base)),
        r matches Ok(_) ==> forall|s: nat|
            s != slot_value(*key, *base) ==> #[trigger] final(overlay).word_at(s) == old(
                overlay,
            ).word_at(s) && final(overlay).read_ok(s) == old(overlay).read_ok(s),
        r matches Err(e) ==> (e matches SolveError::StoreAccess) && !old(overlay).read_ok(
            slot_value(*key, *base),
        ) && *final(overlay) == *old(overlay),
        old(overlay).read_ok(slot_value(*key, *base)) ==> r matches Ok(_),
{
    let slot = compute_slot(key, base);
    let word = match overlay.read(&slot) {
        Ok(w) => w,
        Err(_) => {
            return Err(SolveError::StoreAccess);
        },
    };
    let rec = decode(&word);
    let new_word = match encode_with_flag_set(rec.short_field, &rec.medium_field) {
        Ok(w) => w,
        Err(e) => {
            proof {
                assert(false);
            }
            return Err(e);
        },
    };
    proof {
        reveal(flagged);
        assert(new_word.value() == flagged(old(overlay).word_at(slot.value())));
    }
    overlay.stage(&slot, &new_word);
    Ok(())
}

/// Stage a flag-setting rewrite of every listed node against the overlay.
///
/// On success, every slot addressed by a listed key holds its old word with
/// the flag forced on, every other slot is untouched, and re-running the pass
/// changes nothing more. Fails only when a node's slot cannot be read, which
/// cannot happen if every listed slot was readable to begin with.
pub fn stage_all<S: WordStore>(
    overlay: &mut Overlay<S>,
    visited: &Vec<Word256>,
    base: &Word256,
) -> (r: Result<(), SolveError>)
    ensures
        r matches Ok(_) ==> forall|s: nat|
            ((#[trigger] touches(visited@, *base, s)) ==> final(overlay).word_at(s) == flagged(
                old(overlay).word_at(s),
            ) && final(overlay).read_ok(s)) && (!touches(visited@, *base, s)
                ==> final(overlay).word_at(s) == old(overlay).word_at(s)
                && final(overlay).read_ok(s) == old(overlay).read_ok(s)),
        r matches Err(e) ==> (e matches SolveError::StoreAccess) && exists|k: int|
            0 <= k < visited@.len() && !old(overlay).read_ok(
                #[trigger] slot_value(visited@[k], *base),
            ),
        (forall|k: int|
            0 <= k < visited@.len() ==> old(overlay).read_ok(
                #[trigger] slot_value(visited@[k], *base),
            )) ==> r matches Ok(_),
{
    let ghost orig = *overlay;
    let ghost bs = *base;
    let mut idx: usize = 0;
    proof {
        assert(visited@.take(0) =~= Seq::<Word256>::empty());
    }
    while idx < visited.len()
        invariant
            0 <= idx <= visited@.len(),
            bs == *base,
            orig == *old(overlay),
            forall|s: nat|
                (#[trigger] touches(visited@.take(idx as int), bs, s)) ==> overlay.word_at(s)
                    == flagged(orig.word_at(s)) && overlay.read_ok(s),
            forall|s: nat|
                !(#[trigger] touches(visited@.take(idx as int), bs, s)) ==> overlay.word_at(s)
                    == orig.word_at(s) && overlay.read_ok(s) == orig.read_ok(s),
        decreases visited@.len() - idx,
    {
        let key = visited[idx];
        let ghost pre = *overlay;
        let ghost slotv = slot_value(visited@[idx as int], bs);
        match stage_one(overlay, &key, base) {
            Ok(_) => {},
            Err(e) => {
                proof {
                    assert(!touches(visited@.take(idx as int), bs, slotv));
                    assert(!old(overlay).read_ok(
                        slot_value(visited@[idx as int], *base),
                    ));
                }
                return Err(e);
            },
        }
        proof {
            lemma_touches_push(visited@, bs, idx as int);
            if touches(visited@.take(idx as int), bs, slotv) {
                lemma_mutation_idempotent(orig.word_at(slotv));
            }
            assert forall|s: nat| #[trigger] touches(visited@.take(idx as int + 1), bs, s)
                implies overlay.word_at(s) == flagged(orig.word_at(s)) && overlay.read_ok(
                s,
            ) by {
                if s != slotv {
                    assert(touches(visited@.take(idx as int), bs, s));
                    assert(overlay.word_at(s) == pre.word_at(s));
                }
            }
            assert forall|s: nat| !(#[trigger] touches(visited@.take(idx as int + 1), bs, s))
                implies overlay.word_at(s) == orig.word_at(s) && overlay.read_ok(s)
                == orig.read_ok(s) by {
                assert(s != slotv);
                assert(!touches(visited@.take(idx as int), bs, s));
                assert(overlay.word_at(s) == pre.word_at(s));
            }
        }
        idx = idx + 1;
    }
    proof {
        assert(visited@.take(visited@.len() as int) =~= visited@);
    }
    Ok(())
}

} // verus!
