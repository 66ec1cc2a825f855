//! The 256-bit storage word: four 64-bit limbs, least significant first,
//! with its value as a natural number and big-endian byte serialization.

use vstd::arithmetic::div_mod::lemma_fundamental_div_mod_converse;
use vstd::prelude::*;

verus! {

/// A 256-bit storage word, split into four 64-bit limbs, least significant first.
#[derive(Clone, Copy, PartialEq, Eq, Structural, Debug)]
pub struct Word256 {
    pub l0: u64,
    pub l1: u64,
    pub l2: u64,
    pub l3: u64,
}

impl Word256 {
    /// The word read as a natural number below 2^256.
    pub open spec fn value(self) -> nat {
        (self.l0 as int + self.l1 as int * 0x1_0000_0000_0000_0000
            + self.l2 as int * 0x1_0000_0000_0000_0000_0000_0000_0000_0000int
            + self.l3 as int * 0x1_0000_0000_0000_0000_0000_0000_0000_0000_0000_0000_0000_0000int)
            as nat
    }

    pub fn zero() -> (r: Word256)
        ensures
            r.value() == 0,
            r == word_of(0),
    {
        Word256 { l0: 0, l1: 0, l2: 0, l3: 0 }
    }

    pub fn from_u64(x: u64) -> (r: Word256)
        ensures
            r.value() == x,
            r == word_of(x as nat),
    {
        Word256 { l0: x, l1: 0, l2: 0, l3: 0 }
    }

    pub fn is_zero(&self) -> (r: bool)
        ensures
            r <==> self.value() == 0,
    {
        self.l0 == 0 && self.l1 == 0 && self.l2 == 0 && self.l3 == 0
    }

    /// Serialize as 32 bytes, big-endian.
    pub fn to_be_bytes(&self) -> (r: Vec<u8>)
        ensures
            r@ == word_be_bytes(*self),
            r@.len() == 32,
    {
        let mut out: Vec<u8> = Vec::new();
        push_be_limb(&mut out, self.l3);
        push_be_limb(&mut out, self.l2);
        push_be_limb(&mut out, self.l1);
        push_be_limb(&mut out, self.l0);
        proof {
            assert(out@ =~= word_be_bytes(*self));
        }
        out
    }

    /// Read 32 bytes as a big-endian word.
    pub fn from_be_bytes(bytes: &Vec<u8>) -> (r: Word256)
        requires
            bytes@.len() == 32,
        ensures
            r == word_from_be_seq(bytes@),
    {
        Word256 {
            l3: limb_from_be(bytes, 0),
            l2: limb_from_be(bytes, 8),
            l1: limb_from_be(bytes, 16),
            l0: limb_from_be(bytes, 24),
        }
    }
}

/// The canonical word holding a given value below 2^256.
pub open spec fn word_of(n: nat) -> Word256 {
    Word256 {
        l0: (n % 0x1_0000_0000_0000_0000) as u64,
        l1: ((n / 0x1_0000_0000_0000_0000) % 0x1_0000_0000_0000_0000) as u64,
        l2: ((n / 0x1_0000_0000_0000_0000_0000_0000_0000_0000nat) % 0x1_0000_0000_0000_0000) as u64,
        l3: ((n / 0x1_0000_0000_0000_0000_0000_0000_0000_0000_0000_0000_0000_0000nat)
            % 0x1_0000_0000_0000_0000) as u64,
    }
}

/// Every word is the canonical form of its own value, and that value is below 2^256.
pub proof fn lemma_canonical(w: Word256)
    ensures
        word_of(w.value()) == w,
        w.value()
            < 0x1_0000_0000_0000_0000_0000_0000_0000_0000_0000_0000_0000_0000_0000_0000_0000_0000int,
{
    let v: int = w.value() as int;
    let b1: int = 0x1_0000_0000_0000_0000;
    let b2: int = 0x1_0000_0000_0000_0000_0000_0000_0000_0000int;
    let b3: int = 0x1_0000_0000_0000_0000_0000_0000_0000_0000_0000_0000_0000_0000int;
    lemma_fundamental_div_mod_converse(
        v,
        b1,
        w.l1 as int + w.l2 as int * b1 + w.l3 as int * b2,
        w.l0 as int,
    );
    lemma_fundamental_div_mod_converse(v, b2, w.l2 as int + w.l3 as int * b1, w.l0 as int
        + w.l1 as int * b1);
    lemma_fundamental_div_mod_converse(v, b3, w.l3 as int, w.l0 as int + w.l1 as int * b1
        + w.l2 as int * b2);
    lemma_fundamental_div_mod_converse(
        v / b1,
        b1,
        w.l2 as int + w.l3 as int * b1,
        w.l1 as int,
    );
    assert(v / b2 == w.l2 as int + w.l3 as int * b1);
    lemma_fundamental_div_mod_converse(v / b2, b1, w.l3 as int, w.l2 as int);
    lemma_fundamental_div_mod_converse(v / b3, b1, 0, w.l3 as int);
}

/// Two words with one value are the same word.
pub proof fn lemma_value_injective(a: Word256, b: Word256)
    requires
        a.value() == b.value(),
    ensures
        a == b,
{
    lemma_canonical(a);
    lemma_canonical(b);
}

/// The eight big-endian bytes of one limb, most significant first.
pub open spec fn limb_be_seq(l: u64) -> Seq<u8> {
    seq![
        ((l / 0x100_0000_0000_0000) % 0x100) as u8,
        ((l / 0x1_0000_0000_0000) % 0x100) as u8,
        ((l / 0x100_0000_0000) % 0x100) as u8,
        ((l / 0x1_0000_0000) % 0x100) as u8,
        ((l / 0x100_0000) % 0x100) as u8,
        ((l / 0x1_0000) % 0x100) as u8,
        ((l / 0x100) % 0x100) as u8,
        (l % 0x100) as u8,
    ]
}

/// The 32 big-endian bytes of a word.
pub open spec fn word_be_bytes(w: Word256) -> Seq<u8> {
    limb_be_seq(w.l3) + limb_be_seq(w.l2) + limb_be_seq(w.l1) + limb_be_seq(w.l0)
}

/// Eight bytes read as one big-endian limb.
pub open spec fn limb_from_be_seq(s: Seq<u8>) -> int {
    s[0] as int * 0x100_0000_0000_0000 + s[1] as int * 0x1_0000_0000_0000 + s[2] as int
        * 0x100_0000_0000 + s[3] as int * 0x1_0000_0000 + s[4] as int * 0x100_0000 + s[5] as int
        * 0x1_0000 + s[6] as int * 0x100 + s[7] as int
}

/// Thirty-two bytes read as one big-endian word.
pub open spec fn word_from_be_seq(s: Seq<u8>) -> Word256 {
    Word256 {
        l3: limb_from_be_seq(s.subrange(0, 8)) as u64,
        l2: limb_from_be_seq(s.subrange(8, 16)) as u64,
        l1: limb_from_be_seq(s.subrange(16, 24)) as u64,
        l0: limb_from_be_seq(s.subrange(24, 32)) as u64,
    }
}

fn push_be_limb(out: &mut Vec<u8>, l: u64)
    ensures
        final(out)@ == old(out)@ + limb_be_seq(l),
{
    out.push(((l / 0x100_0000_0000_0000) % 0x100) as u8);
    out.push(((l / 0x1_0000_0000_0000) % 0x100) as u8);
    out.push(((l / 0x100_0000_0000) % 0x100) as u8);
    out.push(((l / 0x1_0000_0000) % 0x100) as u8);
    out.push(((l / 0x100_0000) % 0x100) as u8);
    out.push(((l / 0x1_0000) % 0x100) as u8);
    out.push(((l / 0x100) % 0x100) as u8);
    out.push((l % 0x100) as u8);
    proof {
        assert(out@ =~= old(out)@ + limb_be_seq(l));
    }
}

fn limb_from_be(bytes: &Vec<u8>, start: usize) -> (r: u64)
    requires
        start + 8 <= bytes@.len(),
    ensures
        r == limb_from_be_seq(bytes@.subrange(start as int, start as int + 8)),
{
    let n: usize = bytes.len();
    let b0 = bytes[start] as u64;
    let b1 = bytes[start + 1] as u64;
    let b2 = bytes[start + 2] as u64;
    let b3 = bytes[start + 3] as u64;
    let b4 = bytes[start + 4] as u64;
    let b5 = bytes[start + 5] as u64;
    let b6 = bytes[start + 6] as u64;
    let b7 = bytes[start + 7] as u64;
    b0 * 0x100_0000_0000_0000 + b1 * 0x1_0000_0000_0000 + b2 * 0x100_0000_0000 + b3 * 0x1_0000_0000
        + b4 * 0x100_0000 + b5 * 0x1_0000 + b6 * 0x100 + b7
}

} // verus!
