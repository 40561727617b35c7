//! The bit packer: wall states as a byte sequence, one bit per wall slot.
//!
//! A set bit stands for a wall that is still closed, a clear bit for a
//! passage. Slot `i` is bit `i % 8` of byte `i / 8`, counted from the least
//! significant bit. The bits of the last byte beyond the last slot are clear.

use vstd::prelude::*;

verus! {

/// The number of bytes that hold `wall_count` bits.
pub open spec fn packed_len(wall_count: int) -> int {
    (wall_count + 7) / 8
}

/// 1 if `walls` has a slot `i` and that slot is closed, else 0. `walls[i]`
/// tells whether slot `i` is open.
pub open spec fn closed_bit(walls: Seq<bool>, i: int) -> int {
    if 0 <= i < walls.len() && !walls[i] {
        1
    } else {
        0
    }
}

/// The value of byte `k` of the packed form of `walls`.
pub open spec fn packed_byte(walls: Seq<bool>, k: int) -> int {
    closed_bit(walls, 8 * k) + 2 * closed_bit(walls, 8 * k + 1) + 4 * closed_bit(walls, 8 * k + 2)
        + 8 * closed_bit(walls, 8 * k + 3) + 16 * closed_bit(walls, 8 * k + 4) + 32 * closed_bit(
        walls,
        8 * k + 5,
    ) + 64 * closed_bit(walls, 8 * k + 6) + 128 * closed_bit(walls, 8 * k + 7)
}

/// The packed form of `walls`.
pub open spec fn pack_walls(walls: Seq<bool>) -> Seq<u8> {
    Seq::new(packed_len(walls.len() as int) as nat, |k: int| packed_byte(walls, k) as u8)
}

/// Bit `bit` of `byte` is set, counting from the least significant bit.
pub open spec fn bit_is_set(byte: u8, bit: int) -> bool {
    0 <= bit < 8 && (byte >> (bit as u8)) & 1u8 == 1u8
}

/// The wall states that `bytes` hold for `wall_count` slots: slot `i` is
/// open where its bit is clear.
pub open spec fn unpack_walls(bytes: Seq<u8>, wall_count: int) -> Seq<bool> {
    Seq::new(wall_count as nat, |i: int| !bit_is_set(bytes[i / 8], i % 8))
}

/// The bits of `bytes` in their order, eight for each byte and the least
/// significant bit of a byte first: `true` for a set bit.
pub open spec fn bits_of(bytes: Seq<u8>) -> Seq<bool> {
    Seq::new(8 * bytes.len(), |i: int| bit_is_set(bytes[i / 8], i % 8))
}

/// A byte made of eight bits has each of them at its place.
proof fn lemma_bits_of_sum(b0: u8, b1: u8, b2: u8, b3: u8, b4: u8, b5: u8, b6: u8, b7: u8)
    by (bit_vector)
    requires
        b0 <= 1,
        b1 <= 1,
        b2 <= 1,
        b3 <= 1,
        b4 <= 1,
        b5 <= 1,
        b6 <= 1,
        b7 <= 1,
    ensures
        ({
            let sum = (b0 + 2 * b1 + 4 * b2 + 8 * b3 + 16 * b4 + 32 * b5 + 64 * b6 + 128
                * b7) as u8;
            &&& (sum >> 0u8) & 1u8 == b0
            &&& (sum >> 1u8) & 1u8 == b1
            &&& (sum >> 2u8) & 1u8 == b2
            &&& (sum >> 3u8) & 1u8 == b3
            &&& (sum >> 4u8) & 1u8 == b4
            &&& (sum >> 5u8) & 1u8 == b5
            &&& (sum >> 6u8) & 1u8 == b6
            &&& (sum >> 7u8) & 1u8 == b7
        }),
{
}

/// A packed byte fits in eight bits, and its bit `bit` is set exactly where
/// slot `8 * k + bit` exists and is closed.
pub proof fn lemma_packed_byte_bits(walls: Seq<bool>, k: int, bit: int)
    requires
        0 <= bit < 8,
    ensures
        0 <= packed_byte(walls, k) < 256,
        bit_is_set(packed_byte(walls, k) as u8, bit) <==> closed_bit(walls, 8 * k + bit) == 1,
{
    lemma_bits_of_sum(
        closed_bit(walls, 8 * k) as u8,
        closed_bit(walls, 8 * k + 1) as u8,
        closed_bit(walls, 8 * k + 2) as u8,
        closed_bit(walls, 8 * k + 3) as u8,
        closed_bit(walls, 8 * k + 4) as u8,
        closed_bit(walls, 8 * k + 5) as u8,
        closed_bit(walls, 8 * k + 6) as u8,
        closed_bit(walls, 8 * k + 7) as u8,
    );
}

/// Unpacking is the inverse of packing: the packed form of any wall-state
/// array has one byte for every eight slots, and unpacking it for the
/// array's length gives the array back.
pub proof fn lemma_unpack_pack(walls: Seq<bool>)
    ensures
        pack_walls(walls).len() == packed_len(walls.len() as int),
        unpack_walls(pack_walls(walls), walls.len() as int) == walls,
{
    let packed = pack_walls(walls);
    let unpacked = unpack_walls(packed, walls.len() as int);
    assert forall|i: int| 0 <= i < walls.len() implies unpacked[i] == walls[i] by {
        lemma_packed_byte_bits(walls, i / 8, i % 8);
    }
    assert(unpacked =~= walls);
}

/// The bits of a packed array tell which walls are closed: bit `i` is set
/// exactly where the array has a slot `i` and that slot is closed.
pub proof fn lemma_bits_of_pack(walls: Seq<bool>, i: int)
    requires
        0 <= i < bits_of(pack_walls(walls)).len(),
    ensures
        bits_of(pack_walls(walls))[i] == (i < walls.len() && !walls[i]),
{
    lemma_packed_byte_bits(walls, i / 8, i % 8);
}

/// The weight of bit `bit`: `1 << bit` is the power of two with that exponent.
proof fn lemma_bit_weight(bit: u8)
    by (bit_vector)
    requires
        bit < 8,
    ensures
        bit == 0 ==> (1u8 << bit) == 1,
        bit == 1 ==> (1u8 << bit) == 2,
        bit == 2 ==> (1u8 << bit) == 4,
        bit == 3 ==> (1u8 << bit) == 8,
        bit == 4 ==> (1u8 << bit) == 16,
        bit == 5 ==> (1u8 << bit) == 32,
        bit == 6 ==> (1u8 << bit) == 64,
        bit == 7 ==> (1u8 << bit) == 128,
{
}

/// Setting bit `bit` of a byte that has no bit set from `bit` upwards adds
/// the weight of that bit.
proof fn lemma_set_bit_adds(byte: u8, bit: u8)
    by (bit_vector)
    requires
        bit < 8,
        byte < (1u8 << bit),
    ensures
        (byte | (1u8 << bit)) == byte + (1u8 << bit),
{
}

/// Packs the wall states `walls`, where `walls[i]` tells whether slot `i`
/// is open, into bytes.
pub fn pack(walls: &Vec<bool>) -> (bytes: Vec<u8>)
    ensures
        bytes@ == pack_walls(walls@),
{
    let n: usize = walls.len();
    let count: usize = n / 8 + if n % 8 != 0 { 1 } else { 0 };
    let mut bytes: Vec<u8> = Vec::with_capacity(count);
    bytes.resize(count, 0u8);
    let mut i: usize = 0;
    while i < n
        invariant
            n == walls.len(),
            i <= n,
            bytes.len() == packed_len(n as int),
            forall|k: int|
                0 <= k < bytes.len() ==> #[trigger] bytes[k] == packed_byte(
                    walls@.subrange(0, i as int),
                    k,
                ),
        decreases n - i,
    {
        let ghost before = walls@.subrange(0, i as int);
        let ghost after = walls@.subrange(0, i + 1);
        let k: usize = i / 8;
        let bit: u8 = (i % 8) as u8;
        let old_byte: u8 = bytes[k];
        if !walls[i] {
            proof {
                lemma_bit_weight(bit);
                assert forall|j: int| j >= i implies closed_bit(before, j) == 0 by {}
                lemma_set_bit_adds(old_byte, bit);
            }
            bytes.set(k, old_byte | (1u8 << bit));
        }
        proof {
            assert forall|j: int| j != i implies closed_bit(after, j) == closed_bit(before, j) by {}
            assert(closed_bit(before, i as int) == 0);
            assert forall|m: int| 0 <= m < bytes.len() implies #[trigger] bytes[m] == packed_byte(
                after,
                m,
            ) by {
                if m != k {
                    assert(packed_byte(after, m) == packed_byte(before, m));
                }
            }
        }
        i += 1;
    }
    proof {
        assert(walls@.subrange(0, n as int) =~= walls@);
        assert(bytes@ =~= pack_walls(walls@));
    }
    bytes
}

/// Unpacks `wall_count` wall states from `bytes`. The bytes must be as many
/// as `wall_count` slots pack into; `None` is returned otherwise.
pub fn unpack(bytes: &Vec<u8>, wall_count: usize) -> (walls: Option<Vec<bool>>)
    ensures
        walls.is_some() <==> bytes.len() == packed_len(wall_count as int),
        walls matches Some(open) ==> open@ == unpack_walls(bytes@, wall_count as int),
{
    let count: usize = wall_count / 8 + if wall_count % 8 != 0 { 1 } else { 0 };
    if bytes.len() != count {
        return None;
    }
    let mut open: Vec<bool> = Vec::with_capacity(wall_count);
    let mut i: usize = 0;
    while i < wall_count
        invariant
            i <= wall_count,
            bytes.len() == packed_len(wall_count as int),
            open.len() == i,
            forall|j: int| 0 <= j < i ==> #[trigger] open[j] == !bit_is_set(bytes[j / 8], j % 8),
        decreases wall_count - i,
    {
        let byte: u8 = bytes[i / 8];
        let bit: u8 = (i % 8) as u8;
        open.push((byte >> bit) & 1u8 != 1u8);
        i += 1;
    }
    proof {
        assert(open@ =~= unpack_walls(bytes@, wall_count as int));
    }
    Some(open)
}

/// The bits of `bytes` in their order, eight for each byte and the least
/// significant bit of a byte first. A set bit, which stands for a closed
/// wall, gives `true`.
pub fn unpack_bits(bytes: &Vec<u8>) -> (bits: Vec<bool>)
    ensures
        bits@ == bits_of(bytes@),
{
    let mut bits: Vec<bool> = Vec::new();
    let mut k: usize = 0;
    while k < bytes.len()
        invariant
            k <= bytes.len(),
            bits.len() == 8 * k,
            forall|i: int|
                0 <= i < bits.len() ==> #[trigger] bits[i] == bit_is_set(bytes[i / 8], i % 8),
        decreases bytes.len() - k,
    {
        let byte: u8 = bytes[k];
        let mut bit: u8 = 0;
        while bit < 8
            invariant
                k < bytes.len(),
                byte == bytes[k as int],
                bit <= 8,
                bits.len() == 8 * k + bit,
                forall|i: int|
                    0 <= i < bits.len() ==> #[trigger] bits[i] == bit_is_set(bytes[i / 8], i % 8),
            decreases 8 - bit,
        {
            bits.push((byte >> bit) & 1u8 == 1u8);
            bit += 1;
        }
        k += 1;
    }
    assert(bits@ =~= bits_of(bytes@));
    bits
}

} // verus!
