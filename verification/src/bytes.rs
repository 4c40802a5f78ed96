//! Little-endian integers in byte sequences.

use vstd::prelude::*;

verus! {

/// The value of a little-endian byte sequence.
pub open spec fn le_value(bytes: Seq<u8>) -> nat
    decreases bytes.len(),
{
    if bytes.len() == 0 {
        0
    } else {
        bytes[0] as nat + 256 * le_value(bytes.drop_first())
    }
}

/// The little-endian sequence of `n` bytes for `value`.
pub open spec fn le_bytes(value: nat, n: nat) -> Seq<u8>
    decreases n,
{
    if n == 0 {
        seq![]
    } else {
        seq![(value % 256) as u8] + le_bytes(value / 256, (n - 1) as nat)
    }
}

/// The number of values that `n` bytes have.
pub open spec fn byte_range(n: nat) -> nat
    decreases n,
{
    if n == 0 {
        1
    } else {
        256 * byte_range((n - 1) as nat)
    }
}

/// A sequence of `n` bytes has one of the values of `n` bytes.
pub proof fn lemma_le_value_bound(bytes: Seq<u8>)
    ensures
        le_value(bytes) < byte_range(bytes.len()),
    decreases bytes.len(),
{
    if bytes.len() > 0 {
        lemma_le_value_bound(bytes.drop_first());
    }
}

/// Longer sequences have more values.
pub proof fn lemma_byte_range_grows(m: nat, n: nat)
    requires
        m <= n,
    ensures
        0 < byte_range(m) <= byte_range(n),
    decreases n,
{
    if m < n {
        lemma_byte_range_grows(m, (n - 1) as nat);
    } else if m > 0 {
        lemma_byte_range_grows((m - 1) as nat, (n - 1) as nat);
    }
}

/// Four bytes have the values of `u32`, eight those of `u64`.
pub proof fn lemma_byte_ranges()
    ensures
        byte_range(4) == 0x1_0000_0000,
        byte_range(8) == 0x1_0000_0000_0000_0000,
{
    reveal_with_fuel(byte_range, 9);
}

/// The bytes of a value that fits have that value.
pub proof fn lemma_le_round_trip(value: nat, n: nat)
    requires
        value < byte_range(n),
    ensures
        le_bytes(value, n).len() == n,
        le_value(le_bytes(value, n)) == value,
    decreases n,
{
    if n > 0 {
        let rest = le_bytes(value / 256, (n - 1) as nat);
        lemma_le_round_trip(value / 256, (n - 1) as nat);
        assert(le_bytes(value, n).drop_first() =~= rest);
    }
}

/// Reads the little-endian value of the `n` bytes from `at`.
pub fn read_le(data: &[u8], at: usize, n: usize) -> (value: u64)
    requires
        at + n <= data.len(),
        n <= 8,
    ensures
        value == le_value(data@.subrange(at as int, at + n)),
        value < byte_range(n as nat),
{
    let mut value: u64 = 0;
    let mut i: usize = n;
    proof {
        lemma_byte_ranges();
        assert(data@.subrange(at + n, at + n) =~= Seq::<u8>::empty());
    }
    while i > 0
        invariant
            i <= n <= 8,
            at + n <= data.len(),
            value == le_value(data@.subrange(at + i, at + n)),
            byte_range(8) == 0x1_0000_0000_0000_0000,
        decreases i,
    {
        proof {
            let rest = data@.subrange(at + i, at + n);
            let longer = data@.subrange(at + i - 1, at + n);
            assert(longer.drop_first() =~= rest);
            lemma_le_value_bound(longer);
            lemma_byte_range_grows(longer.len(), 8);
        }
        i = i - 1;
        value = value * 256 + data[at + i] as u64;
    }
    proof {
        lemma_le_value_bound(data@.subrange(at as int, at + n));
    }
    value
}

/// Appends the little-endian sequence of `n` bytes for `value`.
pub fn write_le(out: &mut Vec<u8>, value: u64, n: usize)
    ensures
        final(out)@ == old(out)@ + le_bytes(value as nat, n as nat),
{
    let mut rest: u64 = value;
    let mut i: usize = 0;
    assert(out@ + le_bytes(value as nat, n as nat) == old(out)@ + le_bytes(value as nat, n as nat));
    while i < n
        invariant
            i <= n,
            out@ + le_bytes(rest as nat, (n - i) as nat) == old(out)@ + le_bytes(
                value as nat,
                n as nat,
            ),
        decreases n - i,
    {
        let ghost before = out@;
        out.push((rest % 256) as u8);
        proof {
            let tail = le_bytes((rest / 256) as nat, (n - i - 1) as nat);
            assert(before + (seq![(rest % 256) as u8] + tail) =~= before.push(
                (rest % 256) as u8,
            ) + tail);
        }
        rest = rest / 256;
        i = i + 1;
    }
    assert(out@ + le_bytes(rest as nat, 0) =~= out@);
}

} // verus!
