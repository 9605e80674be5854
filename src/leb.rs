//! Unsigned LEB128, the variable-length integer encoding of the wasm binary format.

use vstd::prelude::*;

verus! {

/// The unsigned LEB128 encoding of `n`: seven bits per byte, low bits first,
/// the high bit of every byte but the last set.
pub open spec fn leb128(n: nat) -> Seq<u8>
    decreases n,
{
    if n < 128 {
        seq![n as u8]
    } else {
        seq![(n % 128 + 128) as u8] + leb128(n / 128)
    }
}

/// Encodes `n` as unsigned LEB128.
pub fn convert_to_leb(n: usize) -> (buf: Vec<u8>)
    ensures
        buf@ == leb128(n as nat),
{
    let mut buf: Vec<u8> = Vec::new();
    let mut i: usize = n;
    while i >= 128
        invariant
            buf@ + leb128(i as nat) == leb128(n as nat),
        decreases i,
    {
        let low: u8 = (i % 128) as u8;
        let ghost before = buf@;
        buf.push(low + 128);
        proof {
            assert(leb128(i as nat) == seq![(i % 128 + 128) as u8] + leb128((i / 128) as nat));
            assert(before + leb128(i as nat) == buf@ + leb128((i / 128) as nat));
        }
        i = i / 128;
    }
    buf.push(i as u8);
    buf
}

/// Reads an unsigned LEB128 integer of at most five bytes that starts at
/// `pos + k`, where `acc` holds the value of the `k` bytes before it and
/// `scale` is `128` to the power `k`. Gives the value and the position after it.
pub open spec fn leb_u32_from(s: Seq<u8>, pos: int, k: nat, acc: nat, scale: nat) -> Option<(u32, int)>
    decreases 5 - k,
{
    if k >= 5 || pos < 0 || pos + k >= s.len() {
        None
    } else {
        let b = s[pos + k];
        let acc2 = acc + (b % 128) as nat * scale;
        if b < 128 {
            if acc2 <= u32::MAX {
                Some((acc2 as u32, pos + k + 1))
            } else {
                None
            }
        } else {
            leb_u32_from(s, pos, k + 1, acc2, scale * 128)
        }
    }
}

/// The unsigned 32-bit LEB128 integer at `pos`, and the position after it;
/// `None` when it runs past the end, takes more than five bytes or exceeds 32 bits.
pub open spec fn leb_u32_at(s: Seq<u8>, pos: int) -> Option<(u32, int)> {
    leb_u32_from(s, pos, 0, 0, 1)
}

proof fn lemma_leb_u32_from_advances(s: Seq<u8>, pos: int, k: nat, acc: nat, scale: nat)
    ensures
        match leb_u32_from(s, pos, k, acc, scale) {
            Some((_, next)) => pos + k < next <= s.len(),
            None => true,
        },
    decreases 5 - k,
{
    if !(k >= 5 || pos < 0 || pos + k >= s.len()) {
        let b = s[pos + k];
        if b >= 128 {
            lemma_leb_u32_from_advances(s, pos, k + 1, acc + (b % 128) as nat * scale, scale * 128);
        }
    }
}

pub proof fn lemma_leb_u32_advances(s: Seq<u8>, pos: int)
    ensures
        match leb_u32_at(s, pos) {
            Some((_, next)) => pos < next <= s.len(),
            None => true,
        },
{
    lemma_leb_u32_from_advances(s, pos, 0, 0, 1);
}

/// Reads the unsigned 32-bit LEB128 integer at `pos`.
pub fn read_var_u32(s: &[u8], pos: usize) -> (r: Option<(u32, usize)>)
    ensures
        match r {
            Some((v, next)) => leb_u32_at(s@, pos as int) == Some((v, next as int)),
            None => leb_u32_at(s@, pos as int) is None,
        },
        match r {
            Some((_, next)) => pos < next <= s@.len(),
            None => true,
        },
{
    proof {
        lemma_leb_u32_advances(s@, pos as int);
    }
    let mut k: usize = 0;
    let mut acc: u64 = 0;
    let mut scale: u64 = 1;
    while k < 5
        invariant
            k <= 5,
            acc < scale,
            scale == pow128(k as nat),
            leb_u32_from(s@, pos as int, k as nat, acc as nat, scale as nat) == leb_u32_at(s@, pos as int),
        decreases 5 - k,
    {
        if pos >= s.len() || k >= s.len() - pos {
            return None;
        }
        let b = s[pos + k];
        proof {
            lemma_pow128_bound(k as nat);
            assert((b % 128) as nat * scale + acc < 128 * scale) by (nonlinear_arith)
                requires
                    acc < scale,
                    b % 128 < 128,
            ;
        }
        let acc2: u64 = acc + ((b % 128) as u64) * scale;
        if b < 128 {
            if acc2 <= 0xFFFF_FFFF {
                return Some((acc2 as u32, pos + k + 1));
            }
            return None;
        }
        acc = acc2;
        scale = scale * 128;
        k = k + 1;
    }
    None
}

/// `128` to the power `k`.
pub open spec fn pow128(k: nat) -> nat
    decreases k,
{
    if k == 0 {
        1
    } else {
        128 * pow128((k - 1) as nat)
    }
}

proof fn lemma_pow128_bound(k: nat)
    requires
        k <= 4,
    ensures
        pow128(k) <= 0x1000_0000,
{
    reveal_with_fuel(pow128, 5);
}

} // verus!
