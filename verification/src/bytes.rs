//! Little-endian integers as sequences of bytes.
//!
//! Every multi-byte field on the wire is little-endian. The two spec functions here say what
//! that means for any width, and the lemmas show that they undo each other.

use vstd::prelude::*;

verus! {

/// One more than the largest value that `n` bytes can hold.
pub open spec fn byte_range(n: nat) -> nat
    decreases n,
{
    if n == 0 {
        1
    } else {
        256 * byte_range((n - 1) as nat)
    }
}

/// The number a sequence of bytes stands for, least significant byte first.
pub open spec fn le_value(bytes: Seq<u8>) -> nat
    decreases bytes.len(),
{
    if bytes.len() == 0 {
        0
    } else {
        bytes[0] as nat + 256 * le_value(bytes.skip(1))
    }
}

/// The lowest `n` bytes of a number, least significant byte first.
pub open spec fn le_bytes(value: nat, n: nat) -> Seq<u8>
    decreases n,
{
    if n == 0 {
        Seq::empty()
    } else {
        seq![(value % 256) as u8] + le_bytes(value / 256, (n - 1) as nat)
    }
}

/// The number a sequence of bytes stands for, most significant byte first.
pub open spec fn be_bytes(value: nat, n: nat) -> Seq<u8> {
    le_bytes(value, n).reverse()
}

/// `n` bytes is what [`le_bytes`] gives when asked for `n`.
pub broadcast proof fn lemma_le_bytes_len(value: nat, n: nat)
    ensures
        #[trigger] le_bytes(value, n).len() == n,
    decreases n,
{
    if n > 0 {
        lemma_le_bytes_len(value / 256, (n - 1) as nat);
    }
}

/// Reading back what was written gives the number that was written.
pub proof fn lemma_le_value_of_bytes(value: nat, n: nat)
    requires
        value < byte_range(n),
    ensures
        le_value(le_bytes(value, n)) == value,
    decreases n,
{
    if n > 0 {
        let rest = (n - 1) as nat;
        lemma_le_value_of_bytes(value / 256, rest);
        lemma_le_bytes_len(value, n);
        assert(le_bytes(value, n).skip(1) =~= le_bytes(value / 256, rest));
    }
}

/// Writing back what was read gives the bytes that were read.
pub proof fn lemma_le_bytes_of_value(bytes: Seq<u8>)
    ensures
        le_bytes(le_value(bytes), bytes.len()) == bytes,
        le_value(bytes) < byte_range(bytes.len()),
    decreases bytes.len(),
{
    if bytes.len() > 0 {
        let rest = bytes.skip(1);
        lemma_le_bytes_of_value(rest);
        let value = le_value(bytes);
        assert(value % 256 == bytes[0]);
        assert(value / 256 == le_value(rest));
        assert(seq![bytes[0]] + rest =~= bytes);
    }
}

/// The ranges of the machine's integers, in bytes.
pub proof fn lemma_byte_ranges()
    ensures
        byte_range(1) == 0x100,
        byte_range(2) == 0x1_0000,
        byte_range(4) == 0x1_0000_0000,
        byte_range(8) == 0x1_0000_0000_0000_0000,
{
    reveal_with_fuel(byte_range, 9);
}

/// Whether a buffer that held `was` now holds `prefix` followed by what it held there before.
pub open spec fn overwritten(now: Seq<u8>, was: Seq<u8>, prefix: Seq<u8>) -> bool {
    &&& prefix.len() <= was.len()
    &&& now == prefix + was.skip(prefix.len() as int)
}

/// A buffer nothing has been written to yet.
pub proof fn lemma_nothing_overwritten(was: Seq<u8>)
    ensures
        overwritten(was, was, Seq::empty()),
        forall|prefix: Seq<u8>| #[trigger] (Seq::<u8>::empty() + prefix) == prefix,
{
    assert(was =~= Seq::<u8>::empty() + was.skip(0));
    assert forall|prefix: Seq<u8>| #[trigger] (Seq::<u8>::empty() + prefix) == prefix by {
        assert(Seq::<u8>::empty() + prefix =~= prefix);
    }
}

/// Writes the lowest `n` bytes of `value` at `at`.
pub fn put_le(buf: &mut [u8], at: usize, value: u64, n: usize)
    requires
        at + n <= old(buf)@.len(),
    ensures
        final(buf)@.len() == old(buf)@.len(),
        forall|was: Seq<u8>, prefix: Seq<u8>| #![trigger overwritten(old(buf)@, was, prefix)]
            overwritten(old(buf)@, was, prefix) && prefix.len() == at ==> overwritten(
                final(buf)@,
                was,
                prefix + le_bytes(value as nat, n as nat),
            ),
{
    broadcast use lemma_le_bytes_len;

    let ghost before = buf@;
    let mut rest: u64 = value;
    let mut i: usize = 0;

    proof {
        assert(buf.len() == before.len());
        assert(before.subrange(at as int, at as int) + le_bytes(rest as nat, n as nat) =~= le_bytes(
            value as nat,
            n as nat,
        ));
    }
    while i < n
        invariant
            i <= n,
            at + n <= before.len() <= usize::MAX,
            buf@.len() == before.len(),
            forall|j: int| 0 <= j < at ==> buf@[j] == before[j],
            forall|j: int| at + n <= j < before.len() ==> buf@[j] == before[j],
            buf@.subrange(at as int, at + i) + le_bytes(rest as nat, (n - i) as nat) == le_bytes(
                value as nat,
                n as nat,
            ),
        decreases n - i,
    {
        let ghost earlier = buf@;
        let byte: u8 = (rest % 256) as u8;
        buf[at + i] = byte;
        proof {
            assert(buf@.subrange(at as int, at + i + 1) =~= earlier.subrange(at as int, at + i)
                + seq![byte]);
            assert(le_bytes(rest as nat, (n - i) as nat) == seq![byte] + le_bytes(
                rest as nat / 256,
                (n - i - 1) as nat,
            ));
            assert(buf@.subrange(at as int, at + i + 1) + le_bytes(
                rest as nat / 256,
                (n - i - 1) as nat,
            ) =~= earlier.subrange(at as int, at + i) + le_bytes(rest as nat, (n - i) as nat));
        }
        rest = rest / 256;
        i = i + 1;
    }
    proof {
        assert(buf@.subrange(at as int, at + n) =~= le_bytes(value as nat, n as nat));
        assert forall|was: Seq<u8>, prefix: Seq<u8>| #![trigger overwritten(before, was, prefix)]
            overwritten(before, was, prefix) && prefix.len() == at implies overwritten(
            buf@,
            was,
            prefix + le_bytes(value as nat, n as nat),
        ) by {
            let written = le_bytes(value as nat, n as nat);
            assert(buf@ =~= (prefix + written) + was.skip((prefix + written).len() as int)) by {
                assert forall|j: int| 0 <= j < buf@.len() implies buf@[j] == ((prefix + written)
                    + was.skip((prefix + written).len() as int))[j] by {
                    if j < at {
                        assert(buf@[j] == before[j]);
                    } else if j < at + n {
                        assert(buf@.subrange(at as int, at + n)[j - at] == written[j - at]);
                    } else {
                        assert(buf@[j] == before[j]);
                    }
                }
            }
        }
    }
}

/// Copies `source` into the buffer at `at`.
pub fn put_bytes(buf: &mut [u8], at: usize, source: &[u8])
    requires
        at + source@.len() <= old(buf)@.len(),
    ensures
        final(buf)@.len() == old(buf)@.len(),
        forall|was: Seq<u8>, prefix: Seq<u8>| #![trigger overwritten(old(buf)@, was, prefix)]
            overwritten(old(buf)@, was, prefix) && prefix.len() == at ==> overwritten(
                final(buf)@,
                was,
                prefix + source@,
            ),
{
    let ghost before = buf@;
    let mut i: usize = 0;
    proof {
        assert(buf.len() == before.len());
    }
    while i < source.len()
        invariant
            i <= source@.len(),
            at + source@.len() <= before.len() <= usize::MAX,
            buf@.len() == before.len(),
            forall|j: int| 0 <= j < at ==> buf@[j] == before[j],
            forall|j: int| at <= j < at + i ==> buf@[j] == source@[j - at],
            forall|j: int| at + i <= j < before.len() ==> buf@[j] == before[j],
        decreases source@.len() - i,
    {
        buf[at + i] = source[i];
        i = i + 1;
    }
    proof {
        assert forall|was: Seq<u8>, prefix: Seq<u8>| #![trigger overwritten(before, was, prefix)]
            overwritten(before, was, prefix) && prefix.len() == at implies overwritten(
            buf@,
            was,
            prefix + source@,
        ) by {
            let now = (prefix + source@) + was.skip((prefix + source@).len() as int);
            assert forall|j: int| 0 <= j < buf@.len() implies buf@[j] == now[j] by {
                if j < at || j >= at + source@.len() {
                    assert(buf@[j] == before[j]);
                }
            }
            assert(buf@ =~= now);
        }
    }
}

/// Writes one byte at `at`.
pub fn put_byte(buf: &mut [u8], at: usize, byte: u8)
    requires
        at < old(buf)@.len(),
    ensures
        final(buf)@.len() == old(buf)@.len(),
        forall|was: Seq<u8>, prefix: Seq<u8>| #![trigger overwritten(old(buf)@, was, prefix)]
            overwritten(old(buf)@, was, prefix) && prefix.len() == at ==> overwritten(
                final(buf)@,
                was,
                prefix + seq![byte],
            ),
{
    let ghost before = buf@;
    buf[at] = byte;
    proof {
        assert forall|was: Seq<u8>, prefix: Seq<u8>| #![trigger overwritten(before, was, prefix)]
            overwritten(before, was, prefix) && prefix.len() == at implies overwritten(
            buf@,
            was,
            prefix + seq![byte],
        ) by {
            assert(buf@ =~= (prefix + seq![byte]) + was.skip((prefix + seq![byte]).len() as int));
        }
    }
}

/// The little-endian number in the `n` bytes at `at`.
pub open spec fn le_at(bytes: Seq<u8>, at: int, n: int) -> nat {
    le_value(bytes.subrange(at, at + n))
}

/// Reads a little-endian number of `n` bytes at `at`.
pub fn read_le(bytes: &[u8], at: usize, n: usize) -> (value: u64)
    requires
        n <= 8,
        at + n <= bytes@.len(),
    ensures
        value == le_at(bytes@, at as int, n as int),
        value < byte_range(n as nat),
{
    let mut value: u64 = 0;
    let mut i: usize = n;
    proof {
        assert(bytes.len() == bytes@.len());
        assert(bytes@.subrange(at + n, at + n).len() == 0);
        lemma_byte_ranges();
    }
    while i > 0
        invariant
            i <= n <= 8,
            at + n <= bytes@.len() <= usize::MAX,
            value == le_value(bytes@.subrange(at + i, at + n)),
            value < byte_range((n - i) as nat),
        decreases i,
    {
        i = i - 1;
        let ghost tail = bytes@.subrange(at + i, at + n);
        proof {
            assert(tail.skip(1) =~= bytes@.subrange(at + i + 1, at + n));
            lemma_le_bytes_of_value(tail);
            reveal_with_fuel(byte_range, 9);
        }
        value = bytes[at + i] as u64 + 256 * value;
    }
    value
}

/// Reads a little-endian `u64` at `at`.
pub fn read_u64(bytes: &[u8], at: usize) -> (value: u64)
    requires
        at + 8 <= bytes@.len(),
    ensures
        value == le_at(bytes@, at as int, 8),
{
    read_le(bytes, at, 8)
}

/// Reads a little-endian `u32` at `at`.
pub fn read_u32(bytes: &[u8], at: usize) -> (value: u32)
    requires
        at + 4 <= bytes@.len(),
    ensures
        value == le_at(bytes@, at as int, 4),
{
    proof {
        lemma_byte_ranges();
    }
    read_le(bytes, at, 4) as u32
}

/// Reads a little-endian `u16` at `at`.
pub fn read_u16(bytes: &[u8], at: usize) -> (value: u16)
    requires
        at + 2 <= bytes@.len(),
    ensures
        value == le_at(bytes@, at as int, 2),
{
    proof {
        lemma_byte_ranges();
    }
    read_le(bytes, at, 2) as u16
}

} // verus!
