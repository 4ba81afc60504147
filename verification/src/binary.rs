//! Hexadecimal binary literals: grammar of the body and exact bit packing.
use vstd::prelude::*;
use crate::chars::hex_value;

verus! {

/// Nibbles written by a binary literal body: uppercase hexadecimal digits,
/// interleaved with the print controls `\N\` and `\F\`, which contribute nothing.
pub open spec fn binary_nibbles(s: Seq<u8>) -> Option<Seq<u8>>
    decreases s.len(),
{
    if s.len() == 0 {
        Some(Seq::empty())
    } else if s.last() == 0x5c {
        if s.len() >= 3 && s[s.len() - 3] == 0x5c && (s[s.len() - 2] == 0x4e || s[s.len() - 2]
            == 0x46) {
            binary_nibbles(s.take(s.len() - 3))
        } else {
            None
        }
    } else {
        match hex_value(s.last()) {
            Some(v) => match binary_nibbles(s.drop_last()) {
                Some(n) => Some(n.push(v)),
                None => None,
            },
            None => None,
        }
    }
}

/// Bit `j` (most significant first) of a nibble stream.
pub open spec fn nibble_bit(n: Seq<u8>, j: int) -> u8 {
    (n[j / 4] >> ((3 - j % 4) as u8)) & 1
}

/// Bit `i` (most significant first) of a byte sequence.
pub open spec fn byte_bit(b: Seq<u8>, i: int) -> u8 {
    (b[i / 8] >> ((7 - i % 8) as u8)) & 1
}

/// The leading `unused` bits of the first nibble are zero padding, and an empty
/// payload has no padding.
pub open spec fn padding_ok(n: Seq<u8>, unused: nat) -> bool {
    &&& unused <= 3
    &&& (n.len() == 0 ==> unused == 0)
    &&& (n.len() > 0 ==> (n[0] >> ((4 - unused) as u8)) == 0)
}

/// `bytes` holds the bits of `n` after dropping the first `unused`, packed
/// most significant bit first, zero padded at the end.
pub open spec fn packed(n: Seq<u8>, unused: nat, bytes: Seq<u8>, bit_len: nat) -> bool {
    &&& bit_len == 4 * n.len() - unused
    &&& bytes.len() == (bit_len + 7) / 8
    &&& forall|i: int|
        0 <= i < 8 * bytes.len() ==> #[trigger] byte_bit(bytes, i) == if i < bit_len {
            nibble_bit(n, i + unused)
        } else {
            0
        }
}

proof fn lemma_set_bit(x: u8, v: u8, r: u8, s: u8)
    requires
        v <= 1,
        r < 8,
        s < 8,
    ensures
        ((x | (v << (7 - r) as u8)) >> (7 - s) as u8) & 1 == if s == r {
            v | ((x >> (7 - s) as u8) & 1)
        } else {
            (x >> (7 - s) as u8) & 1
        },
{
    assert(((x | (v << (7 - r) as u8)) >> (7 - s) as u8) & 1 == if s == r {
        v | ((x >> (7 - s) as u8) & 1)
    } else {
        (x >> (7 - s) as u8) & 1
    }) by (bit_vector)
        requires
            v <= 1,
            r < 8,
            s < 8,
    ;
}

proof fn lemma_zero_bits(s: u8)
    requires
        s < 8,
    ensures
        (0u8 >> (7 - s) as u8) & 1 == 0,
{
    assert((0u8 >> (7 - s) as u8) & 1 == 0) by (bit_vector)
        requires
            s < 8,
    ;
}

proof fn lemma_or_zero(v: u8)
    ensures
        v | 0 == v,
{
    assert(v | 0 == v) by (bit_vector);
}

proof fn lemma_bit_le_one(x: u8, s: u8)
    ensures
        (x >> s) & 1 <= 1,
{
    assert((x >> s) & 1 <= 1) by (bit_vector);
}

/// Packs the nibbles after dropping the `unused` leading padding bits.
pub fn pack_bits(nibbles: &[u8], unused: usize) -> (r: (Vec<u8>, usize))
    requires
        unused <= 3,
        nibbles@.len() * 4 >= unused,
        nibbles@.len() * 4 <= usize::MAX,
        forall|i: int| 0 <= i < nibbles@.len() ==> #[trigger] nibbles@[i] < 16,
    ensures
        packed(nibbles@, unused as nat, r.0@, r.1 as nat),
{
    let bit_len = nibbles.len() * 4 - unused;
    let count = bit_len / 8 + if bit_len % 8 == 0 { 0 } else { 1 };
    let mut bytes: Vec<u8> = Vec::new();
    let mut k: usize = 0;
    while k < count
        invariant
            k <= count,
            bytes@.len() == k,
            forall|i: int| 0 <= i < k ==> #[trigger] bytes@[i] == 0,
        decreases count - k,
    {
        bytes.push(0);
        k += 1;
    }
    assert(count == (bit_len + 7) / 8);
    assert forall|i: int| 0 <= i < 8 * bytes@.len() implies #[trigger] byte_bit(bytes@, i) == 0 by {
        assert(bytes@[i / 8] == 0);
        lemma_zero_bits((i % 8) as u8);
    }
    let mut bit: usize = 0;
    while bit < bit_len
        invariant
            bit <= bit_len,
            bit_len == nibbles@.len() * 4 - unused,
            unused <= 3,
            bytes@.len() == count,
            count == (bit_len + 7) / 8,
            forall|i: int| 0 <= i < nibbles@.len() ==> #[trigger] nibbles@[i] < 16,
            forall|i: int|
                0 <= i < 8 * bytes@.len() ==> #[trigger] byte_bit(bytes@, i) == if i < bit {
                    nibble_bit(nibbles@, i + unused)
                } else {
                    0
                },
        decreases bit_len - bit,
    {
        let source_bit = bit + unused;
        let value = (nibbles[source_bit / 4] >> ((3 - source_bit % 4) as u8)) & 1;
        let index = bit / 8;
        let old_byte = bytes[index];
        let shift = (7 - bit % 8) as u8;
        let new_byte = old_byte | (value << shift);
        let ghost before = bytes@;
        bytes.set(index, new_byte);
        proof {
            lemma_bit_le_one(nibbles@[(source_bit / 4) as int], (3 - source_bit % 4) as u8);
            assert forall|i: int| 0 <= i < 8 * bytes@.len() implies #[trigger] byte_bit(bytes@, i)
                == if i < bit + 1 {
                nibble_bit(nibbles@, i + unused)
            } else {
                0
            } by {
                let prev = byte_bit(before, i);
                assert(prev == if i < bit {
                    nibble_bit(nibbles@, i + unused)
                } else {
                    0
                });
                if i / 8 == index as int {
                    let r = (bit % 8) as u8;
                    let s = (i % 8) as u8;
                    lemma_set_bit(old_byte, value, r, s);
                    assert(bytes@[i / 8] == new_byte);
                    assert(shift == (7 - r) as u8);
                    assert(byte_bit(bytes@, i) == ((new_byte >> (7 - s) as u8) & 1));
                    assert(prev == ((old_byte >> (7 - s) as u8) & 1));
                    if s == r {
                        assert(i == bit);
                        lemma_or_zero(value);
                    }
                } else {
                    assert(bytes@[i / 8] == before[i / 8]);
                }
            }
        }
        bit += 1;
    }
    (bytes, bit_len)
}

} // verus!
