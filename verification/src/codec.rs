//! The packed record codec: one 256-bit word holds a 64-bit field at bit 0,
//! a 160-bit field at bit 64, and a flag at bit 224.

use crate::errors::SolveError;
use crate::word::{lemma_canonical, word_of, Word256};
use vstd::arithmetic::div_mod::{lemma_fundamental_div_mod, lemma_fundamental_div_mod_converse};
use vstd::prelude::*;

verus! {

/// The three unpacked fields of one node word.
#[derive(Clone, Copy, PartialEq, Eq, Structural, Debug)]
pub struct Record {
    pub short_field: u64,
    pub medium_field: Word256,
    pub flag_bit: bool,
}

/// Bits [0, 64) of a word value.
pub open spec fn short_of(w: nat) -> nat {
    w % 0x1_0000_0000_0000_0000
}

/// Bits [64, 224) of a word value.
pub open spec fn medium_of(w: nat) -> nat {
    (w / 0x1_0000_0000_0000_0000nat) % 0x1_0000_0000_0000_0000_0000_0000_0000_0000_0000_0000nat
}

/// Bit 224 of a word value.
pub open spec fn flag_of(w: nat) -> bool {
    (w / 0x1_0000_0000_0000_0000_0000_0000_0000_0000_0000_0000_0000_0000_0000_0000nat) % 2 == 1
}

/// The word packing the two fields with the flag forced on and bits
/// [232, 256) left at zero.
pub open spec fn with_flag(short: nat, medium: nat) -> nat {
    short + medium * 0x1_0000_0000_0000_0000
        + 0x1_0000_0000_0000_0000_0000_0000_0000_0000_0000_0000_0000_0000_0000_0000nat
}

/// The word as it stands after the flag is forced on: fields kept, flag set.
#[verifier::opaque]
pub open spec fn flagged(w: nat) -> nat {
    with_flag(short_of(w), medium_of(w))
}

/// Unpack a word into its three fields.
pub fn decode(w: &Word256) -> (r: Record)
    ensures
        r.short_field == short_of(w.value()),
        r.medium_field == word_of(medium_of(w.value())),
        r.medium_field.value() == medium_of(w.value()),
        r.medium_field.value() < 0x1_0000_0000_0000_0000_0000_0000_0000_0000_0000_0000int,
        r.flag_bit == flag_of(w.value()),
{
    let lo32: u64 = w.l3 % 0x1_0000_0000;
    let hi32: u64 = w.l3 / 0x1_0000_0000;
    let medium = Word256 { l0: w.l1, l1: w.l2, l2: lo32, l3: 0 };
    proof {
        let v: int = w.value() as int;
        let b1: int = 0x1_0000_0000_0000_0000;
        let b2: int = 0x1_0000_0000_0000_0000_0000_0000_0000_0000int;
        let b160: int = 0x1_0000_0000_0000_0000_0000_0000_0000_0000_0000_0000int;
        let b224: int = 0x1_0000_0000_0000_0000_0000_0000_0000_0000_0000_0000_0000_0000_0000_0000int;
        let m: int = w.l1 as int + w.l2 as int * b1 + lo32 as int * b2;
        lemma_fundamental_div_mod(w.l3 as int, 0x1_0000_0000);
        // short field and the quotient past it
        lemma_fundamental_div_mod_converse(
            v,
            b1,
            w.l1 as int + w.l2 as int * b1 + w.l3 as int * b2,
            w.l0 as int,
        );
        // medium field out of that quotient
        lemma_fundamental_div_mod_converse(v / b1, b160, hi32 as int, m);
        // flag bit
        lemma_fundamental_div_mod_converse(
            v,
            b224,
            hi32 as int,
            w.l0 as int + w.l1 as int * b1 + w.l2 as int * b2 + lo32 as int * (b1 * b2),
        );
        lemma_canonical(medium);
    }
    Record {
        short_field: w.l0,
        medium_field: medium,
        flag_bit: hi32 % 2 == 1,
    }
}

/// Pack the two fields into a word whose flag is set, per the fixed layout.
/// Fails exactly when the 160-bit field does not fit its width.
pub fn encode_with_flag_set(short_field: u64, medium_field: &Word256) -> (r: Result<
    Word256,
    SolveError,
>)
    ensures
        (r matches Ok(_)) <==> medium_field.value()
            < 0x1_0000_0000_0000_0000_0000_0000_0000_0000_0000_0000int,
        (r matches Ok(w) ==> w.value() == with_flag(short_field as nat, medium_field.value())),
        (r matches Err(e) ==> e matches SolveError::EncodingRange),
{
    if medium_field.l3 != 0 || medium_field.l2 >= 0x1_0000_0000 {
        proof {
            let b2: int = 0x1_0000_0000_0000_0000_0000_0000_0000_0000int;
            if medium_field.l2 >= 0x1_0000_0000 {
                assert(medium_field.l2 as int * b2 >= 0x1_0000_0000 * b2);
            }
        }
        Err(SolveError::EncodingRange)
    } else {
        let w = Word256 {
            l0: short_field,
            l1: medium_field.l0,
            l2: medium_field.l1,
            l3: medium_field.l2 + 0x1_0000_0000,
        };
        proof {
            let b1: int = 0x1_0000_0000_0000_0000;
            let b2: int = 0x1_0000_0000_0000_0000_0000_0000_0000_0000int;
            let b3: int = 0x1_0000_0000_0000_0000_0000_0000_0000_0000_0000_0000_0000_0000int;
            assert(w.value() == short_field as int + medium_field.value() * b1 + b3 * 0x1_0000_0000);
        }
        Ok(w)
    }
}

/// The deployment-time payload of one node: the two packed fields, before
/// any flag is set.
#[derive(Clone, Copy, PartialEq, Eq, Structural, Debug)]
pub struct Payload {
    pub first_value: u64,
    pub second_value: Word256,
}

impl Payload {
    /// The second field must fit its 160-bit width.
    pub open spec fn wf(self) -> bool {
        self.second_value.value() < 0x1_0000_0000_0000_0000_0000_0000_0000_0000_0000_0000
    }

    /// The word a freshly deployed node starts as: both fields packed at
    /// their fixed offsets, the flag clear, all higher bits zero.
    pub fn initial_word(&self) -> (r: Word256)
        requires
            self.wf(),
        ensures
            r.value() == self.first_value + self.second_value.value() * 0x1_0000_0000_0000_0000,
            short_of(r.value()) == self.first_value,
            medium_of(r.value()) == self.second_value.value(),
            !flag_of(r.value()),
    {
        proof {
            let m = self.second_value;
            let b2: int = 0x1_0000_0000_0000_0000_0000_0000_0000_0000int;
            let b3: int = 0x1_0000_0000_0000_0000_0000_0000_0000_0000_0000_0000_0000_0000int;
            if m.l3 >= 1 {
                assert(m.l3 as int * b3 >= b3);
            }
            if m.l2 >= 0x1_0000_0000 {
                assert(m.l2 as int * b2 >= 0x1_0000_0000 * b2);
            }
        }
        let r = Word256 {
            l0: self.first_value,
            l1: self.second_value.l0,
            l2: self.second_value.l1,
            l3: self.second_value.l2,
        };
        proof {
            let b1: int = 0x1_0000_0000_0000_0000;
            let b160: int = 0x1_0000_0000_0000_0000_0000_0000_0000_0000_0000_0000int;
            let b224: int =
                0x1_0000_0000_0000_0000_0000_0000_0000_0000_0000_0000_0000_0000_0000_0000int;
            let v: int = r.value() as int;
            assert(v == self.first_value + self.second_value.value() * b1);
            lemma_fundamental_div_mod_converse(
                v,
                b1,
                self.second_value.value() as int,
                self.first_value as int,
            );
            lemma_fundamental_div_mod_converse(
                self.second_value.value() as int,
                b160,
                0,
                self.second_value.value() as int,
            );
            lemma_fundamental_div_mod_converse(
                v,
                b224,
                0,
                v,
            );
        }
        r
    }
}

/// Packing two in-range fields with the flag forced on keeps both fields
/// readable unchanged and reads the flag as set.
pub proof fn lemma_flag_set_preserves_fields(short: nat, medium: nat)
    requires
        short < 0x1_0000_0000_0000_0000,
        medium < 0x1_0000_0000_0000_0000_0000_0000_0000_0000_0000_0000int,
    ensures
        short_of(with_flag(short, medium)) == short,
        medium_of(with_flag(short, medium)) == medium,
        flag_of(with_flag(short, medium)),
{
    let v: int = with_flag(short, medium) as int;
    let b1: int = 0x1_0000_0000_0000_0000;
    let b160: int = 0x1_0000_0000_0000_0000_0000_0000_0000_0000_0000_0000int;
    let b224: int = 0x1_0000_0000_0000_0000_0000_0000_0000_0000_0000_0000_0000_0000_0000_0000int;
    lemma_fundamental_div_mod_converse(v, b1, medium as int + b160, short as int);
    lemma_fundamental_div_mod_converse(medium as int + b160, b160, 1, medium as int);
    lemma_fundamental_div_mod_converse(v, b224, 1, short as int + medium as int * b1);
}

/// Re-encoding the fields read out of any word with bits [232, 256) clear
/// preserves both fields and sets the flag.
pub proof fn lemma_codec_round_trip(w: nat)
    requires
        w < 0x100_0000_0000_0000_0000_0000_0000_0000_0000_0000_0000_0000_0000_0000_0000nat,
    ensures
        short_of(flagged(w)) == short_of(w),
        medium_of(flagged(w)) == medium_of(w),
        flag_of(flagged(w)),
{
    reveal(flagged);
    lemma_flag_set_preserves_fields(short_of(w), medium_of(w));
}

/// Forcing the flag on twice gives the same word as forcing it once.
pub proof fn lemma_mutation_idempotent(w: nat)
    ensures
        flagged(flagged(w)) == flagged(w),
{
    reveal(flagged);
    lemma_flag_set_preserves_fields(short_of(w), medium_of(w));
    lemma_flag_set_preserves_fields(short_of(flagged(w)), medium_of(flagged(w)));
}

} // verus!
