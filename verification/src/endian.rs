//! Big-endian integers as sequences of bytes.

use vstd::prelude::*;

verus! {

/// The number that `bytes` spells in base 256, most significant byte first.
pub open spec fn be_value(bytes: Seq<u8>) -> nat
    decreases bytes.len(),
{
    if bytes.len() == 0 {
        0
    } else {
        be_value(bytes.drop_last()) * 256 + bytes.last() as nat
    }
}

/// The `width` lowest base-256 digits of `value`, most significant first.
pub open spec fn be_bytes(value: nat, width: nat) -> Seq<u8>
    decreases width,
{
    if width == 0 {
        Seq::empty()
    } else {
        be_bytes(value / 256, (width - 1) as nat).push((value % 256) as u8)
    }
}

/// `256` to the power `width`: the count of numbers that `width` bytes can spell.
pub open spec fn be_limit(width: nat) -> nat
    decreases width,
{
    if width == 0 {
        1
    } else {
        256 * be_limit((width - 1) as nat)
    }
}

/// The 32-bit two's complement pattern of `value`, read as an unsigned number.
pub open spec fn twos_complement(value: i32) -> nat {
    if value < 0 {
        (value + 0x1_0000_0000) as nat
    } else {
        value as nat
    }
}

pub proof fn lemma_be_bytes_len(value: nat, width: nat)
    ensures
        be_bytes(value, width).len() == width,
    decreases width,
{
    if width > 0 {
        lemma_be_bytes_len(value / 256, (width - 1) as nat);
    }
}

/// Reading the digits of a number that fits gives the number back.
pub proof fn lemma_be_round_trip(value: nat, width: nat)
    requires
        value < be_limit(width),
    ensures
        be_bytes(value, width).len() == width,
        be_value(be_bytes(value, width)) == value,
    decreases width,
{
    lemma_be_bytes_len(value, width);
    if width > 0 {
        let high = be_bytes(value / 256, (width - 1) as nat);
        assert(be_limit(width) == 256 * be_limit((width - 1) as nat));
        lemma_be_round_trip(value / 256, (width - 1) as nat);
        assert(be_bytes(value, width).drop_last() =~= high);
    }
}

/// Writing the number that some bytes spell gives the bytes back.
pub proof fn lemma_be_value_inverse(bytes: Seq<u8>)
    ensures
        be_value(bytes) < be_limit(bytes.len()),
        be_bytes(be_value(bytes), bytes.len()) == bytes,
    decreases bytes.len(),
{
    if bytes.len() > 0 {
        lemma_be_value_inverse(bytes.drop_last());
        let value = be_value(bytes);
        let high = be_value(bytes.drop_last());
        assert(value == high * 256 + bytes.last() as nat);
        assert(value / 256 == high);
        assert(value % 256 == bytes.last() as nat);
        assert(be_bytes(value, bytes.len()) =~= bytes);
    }
}

pub proof fn lemma_be_limits()
    ensures
        be_limit(1) == 0x100,
        be_limit(2) == 0x1_0000,
        be_limit(4) == 0x1_0000_0000,
        be_limit(8) == 0x1_0000_0000_0000_0000,
{
    reveal_with_fuel(be_limit, 9);
}

/// A concatenation splits where it was joined.
pub proof fn lemma_split(front: Seq<u8>, back: Seq<u8>)
    ensures
        (front + back).take(front.len() as int) == front,
        (front + back).skip(front.len() as int) == back,
{
    assert((front + back).take(front.len() as int) =~= front);
    assert((front + back).skip(front.len() as int) =~= back);
}

/// A value put in front of other bytes is read back from the front.
pub proof fn lemma_be_front(value: nat, width: nat, back: Seq<u8>)
    requires
        value < be_limit(width),
    ensures
        (be_bytes(value, width) + back).len() == width + back.len(),
        be_value((be_bytes(value, width) + back).take(width as int)) == value,
        (be_bytes(value, width) + back).skip(width as int) == back,
{
    lemma_be_round_trip(value, width);
    lemma_split(be_bytes(value, width), back);
}

/// Bytes split at `at` join again.
pub proof fn lemma_join(bytes: Seq<u8>, at: int)
    requires
        0 <= at <= bytes.len(),
    ensures
        bytes.take(at) + bytes.skip(at) == bytes,
        bytes.take(at).len() == at,
        bytes.skip(at).len() == bytes.len() - at,
{
    assert(bytes.take(at) + bytes.skip(at) =~= bytes);
}

/// The number in the first four bytes.
pub fn read_u32(bytes: &[u8]) -> (value: u32)
    requires
        bytes@.len() >= 4,
    ensures
        value == be_value(bytes@.take(4)),
{
    proof {
        reveal_with_fuel(be_value, 5);
        let four = bytes@.take(4);
        assert(four.drop_last() =~= bytes@.take(3));
        assert(four.drop_last().drop_last() =~= bytes@.take(2));
        assert(four.drop_last().drop_last().drop_last() =~= bytes@.take(1));
        assert(four.drop_last().drop_last().drop_last().drop_last() =~= bytes@.take(0));
    }
    let high: u32 = (bytes[0] as u32) * 256 + bytes[1] as u32;
    let low: u32 = (bytes[2] as u32) * 256 + bytes[3] as u32;
    high * 65536 + low
}

/// Appends the `width` bytes of `value`.
fn push_be(out: &mut Vec<u8>, value: u64, width: u64)
    ensures
        final(out)@ == old(out)@ + be_bytes(value as nat, width as nat),
    decreases width,
{
    if width > 0 {
        push_be(out, value / 256, width - 1);
        out.push((value % 256) as u8);
    }
    assert(out@ =~= old(out)@ + be_bytes(value as nat, width as nat));
}

/// Appends the eight bytes of `value`.
pub fn push_u64(out: &mut Vec<u8>, value: u64)
    ensures
        final(out)@ == old(out)@ + be_bytes(value as nat, 8),
{
    push_be(out, value, 8);
}

/// Appends the four bytes of `value`.
pub fn push_u32(out: &mut Vec<u8>, value: u32)
    ensures
        final(out)@ == old(out)@ + be_bytes(value as nat, 4),
{
    push_be(out, value as u64, 4);
}

} // verus!
