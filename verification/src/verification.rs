//! The verification caller's data path: encode the visited keys as the one
//! argument of the remote verification call, and decode its boolean verdict
//! from the returned payload.

use crate::addressing::{keccak, keccak_of};
use crate::word::{word_be_bytes, word_of, Word256};
use vstd::prelude::*;

verus! {

/// How a call against the simulated environment can end.
#[derive(Debug)]
pub enum CallOutcome {
    /// The call ran to completion and returned these bytes.
    Success { output: Vec<u8> },
    /// The call reverted, returning these bytes.
    Revert { output: Vec<u8> },
    /// The call halted abnormally for this reason code.
    Halt { reason: u64 },
}

/// The verdict encoded in an outcome: a successful call whose payload holds
/// at least one 32-byte word answers with that word's last byte; a short
/// payload, a revert or a halt all answer no.
pub open spec fn outcome_accepts(o: &CallOutcome) -> bool {
    match o {
        CallOutcome::Success { output } => output@.len() >= 32 && output@[31] != 0,
        _ => false,
    }
}

/// Decode the boolean verdict of a call outcome.
pub fn interpret_outcome(o: &CallOutcome) -> (r: bool)
    ensures
        r == outcome_accepts(o),
{
    match o {
        CallOutcome::Success { output } => {
            if output.len() >= 32 {
                *output.get(31).unwrap() != 0
            } else {
                false
            }
        },
        _ => false,
    }
}

/// The ASCII bytes of the verification call's signature.
pub open spec fn signature_bytes() -> Seq<u8> {
    seq![
        0x69u8, 0x73u8, 0x53u8, 0x6fu8, 0x6cu8, 0x76u8, 0x65u8, 0x64u8, 0x28u8, 0x75u8, 0x69u8,
        0x6eu8, 0x74u8, 0x32u8, 0x35u8, 0x36u8, 0x5bu8, 0x5du8, 0x29u8,
    ]
}

/// The visited keys, each as a 32-byte big-endian word, in order.
pub open spec fn ids_tail(keys: Seq<Word256>) -> Seq<u8>
    decreases keys.len(),
{
    if keys.len() == 0 {
        Seq::empty()
    } else {
        ids_tail(keys.drop_last()) + word_be_bytes(keys.last())
    }
}

/// The full call payload: the four-byte selector cut from the signature's
/// digest, then the argument offset word, the length word, and the keys.
pub open spec fn call_payload(keys: Seq<Word256>) -> Seq<u8> {
    keccak_of(signature_bytes()).subrange(0, 4) + word_be_bytes(word_of(32)) + word_be_bytes(
        word_of(keys.len()),
    ) + ids_tail(keys)
}

/// Encode the ordered visited keys as the verification call's payload.
pub fn encode_solved_query(keys: &Vec<Word256>) -> (r: Vec<u8>)
    ensures
        r@ == call_payload(keys@),
{
    let mut sig: Vec<u8> = Vec::new();
    sig.push(0x69);
    sig.push(0x73);
    sig.push(0x53);
    sig.push(0x6f);
    sig.push(0x6c);
    sig.push(0x76);
    sig.push(0x65);
    sig.push(0x64);
    sig.push(0x28);
    sig.push(0x75);
    sig.push(0x69);
    sig.push(0x6e);
    sig.push(0x74);
    sig.push(0x32);
    sig.push(0x35);
    sig.push(0x36);
    sig.push(0x5b);
    sig.push(0x5d);
    sig.push(0x29);
    proof {
        assert(sig@ =~= signature_bytes());
    }
    let digest = keccak(&sig);
    let mut out: Vec<u8> = Vec::new();
    out.push(*digest.get(0).unwrap());
    out.push(*digest.get(1).unwrap());
    out.push(*digest.get(2).unwrap());
    out.push(*digest.get(3).unwrap());
    proof {
        assert(out@ =~= keccak_of(signature_bytes()).subrange(0, 4));
    }
    let mut head = Word256::from_u64(32).to_be_bytes();
    out.append(&mut head);
    let len64: u64 = keys.len() as u64;
    let mut lenb = Word256::from_u64(len64).to_be_bytes();
    out.append(&mut lenb);
    let ghost fixed = keccak_of(signature_bytes()).subrange(0, 4) + word_be_bytes(word_of(32))
        + word_be_bytes(word_of(keys@.len()));
    proof {
        assert(out@ =~= fixed);
        assert(ids_tail(keys@.take(0)) =~= Seq::<u8>::empty());
    }
    let mut i: usize = 0;
    while i < keys.len()
        invariant
            0 <= i <= keys@.len(),
            out@ == fixed + ids_tail(keys@.take(i as int)),
        decreases keys@.len() - i,
    {
        let mut kb = keys[i].to_be_bytes();
        out.append(&mut kb);
        proof {
            assert(keys@.take(i as int + 1).drop_last() =~= keys@.take(i as int));
            assert(keys@.take(i as int + 1).last() == keys@[i as int]);
        }
        i = i + 1;
    }
    proof {
        assert(keys@.take(keys@.len() as int) =~= keys@);
    }
    out
}

} // verus!
