//! LEB128 varints: the little-endian base-128 integers that delimit both
//! binary streams of the codec. Encodings are canonical: the final group is
//! never zero unless it is the only group.

use vstd::prelude::*;

verus! {

/// The canonical LEB128 encoding of `v`: 7 value bits per byte, least
/// significant group first, the high bit marking continuation.
pub open spec fn varint_encode(v: nat) -> Seq<u8>
    decreases v,
{
    if v < 128 {
        seq![v as u8]
    } else {
        seq![(v % 128 + 128) as u8] + varint_encode(v / 128)
    }
}

/// Reads one canonical varint from the front of `s`: the value and the number
/// of bytes it occupies, or `None` when `s` starts with no canonical varint.
pub open spec fn varint_decode(s: Seq<u8>) -> Option<(nat, int)>
    decreases s.len(),
{
    if s.len() == 0 {
        None
    } else if s[0] < 128 {
        Some((s[0] as nat, 1))
    } else {
        match varint_decode(s.skip(1)) {
            Some((v, n)) => {
                if v == 0 {
                    None
                } else {
                    Some(((s[0] - 128) as nat + 128 * v, n + 1))
                }
            },
            None => None,
        }
    }
}

pub proof fn lemma_varint_encode_len(v: nat)
    ensures
        1 <= varint_encode(v).len(),
        v < 0x1_0000_0000 ==> varint_encode(v).len() <= 5,
    decreases v,
{
    if v >= 128 {
        lemma_varint_encode_len(v / 128);
        if v < 0x1_0000_0000 {
            lemma_varint_encode_len_steps(v / 128);
        }
    }
}

proof fn lemma_varint_encode_len_steps(v: nat)
    ensures
        v < 0x200_0000 ==> varint_encode(v).len() <= 4,
        v < 0x4_0000 ==> varint_encode(v).len() <= 3,
        v < 0x800 ==> varint_encode(v).len() <= 2,
    decreases v,
{
    if v >= 128 {
        lemma_varint_encode_len_steps(v / 128);
    }
}

/// A varint round-trips: decoding an encoding placed before any suffix
/// returns the encoded value and consumes exactly the encoding.
pub proof fn lemma_varint_roundtrip(v: nat, rest: Seq<u8>)
    ensures
        varint_decode(varint_encode(v) + rest) == Some((v, varint_encode(v).len() as int)),
    decreases v,
{
    let s = varint_encode(v) + rest;
    if v < 128 {
        assert(s[0] == v as u8);
    } else {
        lemma_varint_roundtrip(v / 128, rest);
        assert(s.skip(1) =~= varint_encode(v / 128) + rest);
        assert(s[0] == (v % 128 + 128) as u8);
        assert(v / 128 > 0);
        assert(v % 128 + 128 * (v / 128) == v) by (nonlinear_arith);
        assert((s[0] - 128) as nat + 128 * (v / 128) == v);
    }
}

/// Appends the canonical varint encoding of `v` to `out`.
pub fn write_varint(out: &mut Vec<u8>, v: u32)
    ensures
        final(out)@ == old(out)@ + varint_encode(v as nat),
{
    let mut x: u32 = v;
    while x >= 128
        invariant
            out@ + varint_encode(x as nat) =~= old(out)@ + varint_encode(v as nat),
        decreases x,
    {
        let ghost pre_out: Seq<u8> = out@;
        let ghost pre_x: nat = x as nat;
        let b: u8 = (x % 128 + 128) as u8;
        out.push(b);
        x = x / 128;
        proof {
            assert(varint_encode(pre_x) =~= seq![b] + varint_encode(pre_x / 128));
            assert(out@ =~= pre_out + seq![b]);
            assert(out@ + varint_encode(x as nat) =~= pre_out + varint_encode(pre_x));
        }
    }
    out.push(x as u8);
    proof {
        assert(varint_encode(x as nat) =~= seq![x as u8]);
        assert(out@ =~= old(out)@ + varint_encode(v as nat));
    }
}

} // verus!
