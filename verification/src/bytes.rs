//! Little-endian integers inside byte buffers.

use vstd::arithmetic::div_mod::lemma_div_denominator;
use vstd::arithmetic::power::lemma_pow0;
use vstd::arithmetic::power::lemma_pow1;
use vstd::arithmetic::power::lemma_pow_adds;
use vstd::arithmetic::power::lemma_pow_positive;
use vstd::arithmetic::power::pow;
use vstd::prelude::*;

verus! {

/// The low `n` bytes of `value`, least significant first.
pub open spec fn le_bytes(value: nat, n: nat) -> Seq<u8>
    decreases n,
{
    if n == 0 {
        Seq::empty()
    } else {
        seq![(value % 256) as u8] + le_bytes(value / 256, (n - 1) as nat)
    }
}

/// The number that `bytes` spell, least significant byte first.
pub open spec fn le_value(bytes: Seq<u8>) -> nat
    decreases bytes.len(),
{
    if bytes.len() == 0 {
        0
    } else {
        bytes[0] as nat + 256 * le_value(bytes.drop_first())
    }
}

/// 256 to the power `n`: how many values fit in `n` bytes.
pub open spec fn byte_range(n: nat) -> nat
    decreases n,
{
    if n == 0 {
        1
    } else {
        256 * byte_range((n - 1) as nat)
    }
}

/// `buf` with `bytes` written over it from `offset` on.
pub open spec fn overwrite(buf: Seq<u8>, offset: int, bytes: Seq<u8>) -> Seq<u8> {
    Seq::new(
        buf.len(),
        |i: int|
            if offset <= i < offset + bytes.len() {
                bytes[i - offset]
            } else {
                buf[i]
            },
    )
}

pub proof fn lemma_le_bytes_len(value: nat, n: nat)
    ensures
        le_bytes(value, n).len() == n,
    decreases n,
{
    if n > 0 {
        lemma_le_bytes_len(value / 256, (n - 1) as nat);
    }
}

/// Reading back the `n` low bytes of a number that fits in `n` bytes gives
/// the number.
pub proof fn law_le_round_trip(value: nat, n: nat)
    requires
        value < byte_range(n),
    ensures
        le_bytes(value, n).len() == n,
        le_value(le_bytes(value, n)) == value,
    decreases n,
{
    lemma_le_bytes_len(value, n);
    if n > 0 {
        assert(value / 256 < byte_range((n - 1) as nat));
        law_le_round_trip(value / 256, (n - 1) as nat);
        assert(le_bytes(value, n).drop_first() =~= le_bytes(value / 256, (n - 1) as nat));
    }
}

/// Writing the number that some bytes spell gives those bytes.
pub proof fn law_le_bytes_of_value(bytes: Seq<u8>)
    ensures
        le_bytes(le_value(bytes), bytes.len()) == bytes,
        le_value(bytes) < byte_range(bytes.len()),
    decreases bytes.len(),
{
    if bytes.len() > 0 {
        let rest = bytes.drop_first();
        law_le_bytes_of_value(rest);
        let value = le_value(bytes);
        assert(value == bytes[0] as nat + 256 * le_value(rest));
        assert(value % 256 == bytes[0]);
        assert(value / 256 == le_value(rest));
        assert(le_bytes(value, bytes.len()) =~= seq![bytes[0]] + rest);
        assert(bytes =~= seq![bytes[0]] + rest);
    } else {
        assert(bytes =~= Seq::empty());
    }
}

/// Byte `i` of a number is its digit with the weight 256 to the power `i`.
pub proof fn law_le_byte(value: nat, n: nat, i: nat)
    requires
        i < n,
    ensures
        le_bytes(value, n).len() == n,
        le_bytes(value, n)[i as int] == (value as int / pow(256, i)) % 256,
    decreases n,
{
    lemma_le_bytes_len(value, n);
    if i == 0 {
        lemma_pow0(256);
    } else {
        let j = (i - 1) as nat;
        law_le_byte(value / 256, (n - 1) as nat, j);
        lemma_pow_positive(256, j);
        lemma_pow_adds(256, 1, j);
        lemma_pow1(256);
        lemma_div_denominator(value as int, 256, pow(256, j));
        assert(le_bytes(value, n)[i as int] == le_bytes(value / 256, (n - 1) as nat)[j as int]);
    }
}

/// A number is the sum of its bytes, each times its weight.
pub proof fn law_le_value_adds(low: Seq<u8>, high: Seq<u8>)
    ensures
        le_value(low + high) == le_value(low) + pow(256, low.len()) * le_value(high),
        high.len() == 1 ==> le_value(high) == high[0],
    decreases low.len(),
{
    if low.len() == 0 {
        lemma_pow0(256);
        assert(low + high =~= high);
    } else {
        let rest = low.drop_first();
        law_le_value_adds(rest, high);
        assert((low + high).drop_first() =~= rest + high);
        lemma_pow_adds(256, 1, rest.len());
        lemma_pow1(256);
        let p = pow(256, rest.len());
        let v = le_value(high) as int;
        assert(256 * (p * v) == (256 * p) * v) by (nonlinear_arith);
    }
    if high.len() == 1 {
        assert(high.drop_first().len() == 0);
        assert(le_value(high.drop_first()) == 0);
    }
}

pub proof fn lemma_byte_ranges()
    ensures
        byte_range(1) == 0x100,
        byte_range(2) == 0x1_0000,
        byte_range(4) == 0x1_0000_0000,
        byte_range(8) == 0x1_0000_0000_0000_0000,
{
    reveal_with_fuel(byte_range, 9);
}

/// Appends the `n` low bytes of `value` to `buf`.
pub fn push_le(buf: &mut Vec<u8>, value: u64, n: usize)
    ensures
        final(buf)@ == old(buf)@ + le_bytes(value as nat, n as nat),
{
    let ghost before = buf@;
    let mut rest: u64 = value;
    let mut i: usize = 0;
    proof {
        assert(buf@ + le_bytes(rest as nat, n as nat) =~= before + le_bytes(
            value as nat,
            n as nat,
        ));
    }
    while i < n
        invariant
            i <= n,
            buf@ + le_bytes(rest as nat, (n - i) as nat) == before + le_bytes(
                value as nat,
                n as nat,
            ),
        decreases n - i,
    {
        let ghost buf0 = buf@;
        let byte: u8 = (rest % 256) as u8;
        buf.push(byte);
        proof {
            let tail = le_bytes(rest as nat / 256, (n - i - 1) as nat);
            assert(le_bytes(rest as nat, (n - i) as nat) == seq![byte] + tail);
            assert(buf0 + (seq![byte] + tail) =~= buf@ + tail);
        }
        rest = rest / 256;
        i += 1;
    }
    assert(buf@ + le_bytes(rest as nat, 0) =~= buf@);
}

/// Reads `n` bytes at `offset` as one number.
pub fn read_le(buf: &[u8], offset: usize, n: usize) -> (value: u64)
    requires
        offset + n <= buf@.len(),
        n <= 8,
    ensures
        value == le_value(buf@.subrange(offset as int, offset + n)),
{
    let ghost all = buf@.subrange(offset as int, offset + n);
    let len: usize = buf.len();
    let mut value: u64 = 0;
    let mut i: usize = n;
    assert(all.subrange(n as int, n as int) =~= Seq::empty());
    while i > 0
        invariant
            i <= n <= 8,
            len == buf@.len(),
            offset + n <= len,
            all == buf@.subrange(offset as int, offset + n),
            value == le_value(all.subrange(i as int, n as int)),
        decreases i,
    {
        let ghost tail = all.subrange(i as int, n as int);
        i -= 1;
        proof {
            let longer = all.subrange(i as int, n as int);
            assert(longer.drop_first() =~= tail);
            assert(longer[0] == buf@[offset + i]);
            law_le_bytes_of_value(longer);
            lemma_byte_range_grows(longer.len(), 8);
            lemma_byte_ranges();
        }
        value = value * 256 + buf[offset + i] as u64;
    }
    assert(all.subrange(0, n as int) =~= all);
    value
}

proof fn lemma_byte_range_grows(small: nat, large: nat)
    requires
        small <= large,
    ensures
        0 < byte_range(small) <= byte_range(large),
    decreases large,
{
    if small < large {
        lemma_byte_range_grows(small, (large - 1) as nat);
    } else if small > 0 {
        lemma_byte_range_grows((small - 1) as nat, (small - 1) as nat);
    }
}

/// Writes `bytes` over `buf` from `offset` on.
pub fn copy_into(buf: &mut [u8], offset: usize, bytes: &[u8])
    requires
        offset + bytes@.len() <= old(buf)@.len(),
    ensures
        final(buf)@ == overwrite(old(buf)@, offset as int, bytes@),
{
    let ghost before = buf@;
    let len: usize = buf.len();
    let mut i: usize = 0;
    while i < bytes.len()
        invariant
            i <= bytes@.len(),
            offset + bytes@.len() <= len,
            len == before.len(),
            buf@ =~= overwrite(before, offset as int, bytes@.subrange(0, i as int)),
        decreases bytes@.len() - i,
    {
        buf[offset + i] = bytes[i];
        i += 1;
    }
    assert(bytes@.subrange(0, i as int) =~= bytes@);
}

/// Overwrites four bytes at `offset` with `value`.
pub fn write_u32(buf: &mut [u8], offset: usize, value: u32)
    requires
        offset + 4 <= old(buf)@.len(),
    ensures
        final(buf)@ == overwrite(old(buf)@, offset as int, le_bytes(value as nat, 4)),
{
    let mut bytes: Vec<u8> = Vec::new();
    push_le(&mut bytes, value as u64, 4);
    proof {
        lemma_le_bytes_len(value as nat, 4);
        assert(bytes@ =~= le_bytes(value as nat, 4));
    }
    copy_into(buf, offset, bytes.as_slice());
}

/// Overwrites eight bytes at `offset` with `value`.
pub fn write_u64(buf: &mut [u8], offset: usize, value: u64)
    requires
        offset + 8 <= old(buf)@.len(),
    ensures
        final(buf)@ == overwrite(old(buf)@, offset as int, le_bytes(value as nat, 8)),
{
    let mut bytes: Vec<u8> = Vec::new();
    push_le(&mut bytes, value, 8);
    proof {
        lemma_le_bytes_len(value as nat, 8);
        assert(bytes@ =~= le_bytes(value as nat, 8));
    }
    copy_into(buf, offset, bytes.as_slice());
}

/// The number in the two bytes at `offset`.
pub fn read_u16(buf: &[u8], offset: usize) -> (value: u16)
    requires
        offset + 2 <= buf@.len(),
    ensures
        value == le_value(buf@.subrange(offset as int, offset + 2)),
{
    proof {
        law_le_bytes_of_value(buf@.subrange(offset as int, offset + 2));
        lemma_byte_ranges();
    }
    read_le(buf, offset, 2) as u16
}

/// The number in the four bytes at `offset`.
pub fn read_u32(buf: &[u8], offset: usize) -> (value: u32)
    requires
        offset + 4 <= buf@.len(),
    ensures
        value == le_value(buf@.subrange(offset as int, offset + 4)),
{
    proof {
        law_le_bytes_of_value(buf@.subrange(offset as int, offset + 4));
        lemma_byte_ranges();
    }
    read_le(buf, offset, 4) as u32
}

/// The number in the eight bytes at `offset`.
pub fn read_u64(buf: &[u8], offset: usize) -> (value: u64)
    requires
        offset + 8 <= buf@.len(),
    ensures
        value == le_value(buf@.subrange(offset as int, offset + 8)),
{
    read_le(buf, offset, 8)
}

} // verus!
