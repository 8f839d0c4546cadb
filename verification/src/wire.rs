//! Big-endian integers on the wire.
//!
//! Every multi-byte field of the protocol is an unsigned integer with its most
//! significant byte first. The two spec functions below say what such a field
//! means; the executable reader and writer are proved against them.

use vstd::prelude::*;

verus! {

/// The number spelled by `bytes`, most significant byte first.
pub open spec fn be_value(bytes: Seq<u8>) -> nat
    decreases bytes.len(),
{
    if bytes.len() == 0 {
        0
    } else {
        be_value(bytes.drop_last()) * 256 + bytes.last() as nat
    }
}

/// The `width` low-order bytes of `value`, most significant byte first.
pub open spec fn be_bytes(value: nat, width: nat) -> Seq<u8>
    decreases width,
{
    if width == 0 {
        Seq::empty()
    } else {
        be_bytes(value / 256, (width - 1) as nat).push((value % 256) as u8)
    }
}

/// The number of values that `width` bytes can spell: 256 to the power `width`.
pub open spec fn radix_pow(width: nat) -> nat
    decreases width,
{
    if width == 0 {
        1
    } else {
        256 * radix_pow((width - 1) as nat)
    }
}

/// A field of `width` bytes is `width` bytes long.
pub proof fn lemma_be_bytes_len(value: nat, width: nat)
    ensures
        be_bytes(value, width).len() == width,
    decreases width,
{
    if width > 0 {
        lemma_be_bytes_len(value / 256, (width - 1) as nat);
    }
}

/// A byte string spells a number below 256 to the power of its length.
pub proof fn lemma_be_value_bound(bytes: Seq<u8>)
    ensures
        be_value(bytes) < radix_pow(bytes.len()),
    decreases bytes.len(),
{
    if bytes.len() > 0 {
        lemma_be_value_bound(bytes.drop_last());
    }
}

/// More bytes spell at least as many values.
pub proof fn lemma_radix_pow_monotone(narrow: nat, wide: nat)
    requires
        narrow <= wide,
    ensures
        radix_pow(narrow) <= radix_pow(wide),
    decreases wide,
{
    if narrow < wide {
        lemma_radix_pow_monotone(narrow, (wide - 1) as nat);
    }
}

/// Four bytes spell the numbers below 2^32, eight bytes those below 2^64.
pub proof fn lemma_radix_pow_values()
    ensures
        radix_pow(4) == 0x1_0000_0000,
        radix_pow(8) == 0x1_0000_0000_0000_0000,
{
    reveal_with_fuel(radix_pow, 9);
}

/// Reading back what was written gives the number, when the field is wide
/// enough to hold it.
pub proof fn lemma_value_of_bytes(value: nat, width: nat)
    requires
        value < radix_pow(width),
    ensures
        be_value(be_bytes(value, width)) == value,
    decreases width,
{
    if width > 0 {
        let high = be_bytes(value / 256, (width - 1) as nat);
        lemma_value_of_bytes(value / 256, (width - 1) as nat);
        assert(be_bytes(value, width).drop_last() =~= high);
    }
}

/// Reads the `width`-byte big-endian field that begins at `start`.
pub fn read_be(bytes: &[u8], start: usize, width: usize) -> (value: u64)
    requires
        width <= 8,
        start + width <= bytes.len(),
    ensures
        value == be_value(bytes@.subrange(start as int, start + width)),
{
    let mut value: u64 = 0;
    let mut i: usize = 0;
    while i < width
        invariant
            i <= width <= 8,
            start + width <= bytes.len(),
            value == be_value(bytes@.subrange(start as int, start + i)),
        decreases width - i,
    {
        proof {
            let field = bytes@.subrange(start as int, start + i + 1);
            assert(field.drop_last() =~= bytes@.subrange(start as int, start + i));
            lemma_be_value_bound(field);
            lemma_radix_pow_monotone((i + 1) as nat, 8);
            lemma_radix_pow_values();
        }
        value = value * 256 + bytes[start + i] as u64;
        i += 1;
    }
    value
}

/// Appends the `width` low-order bytes of `value` to `out`, most significant
/// byte first.
pub fn write_be(out: &mut Vec<u8>, value: u64, width: usize)
    ensures
        final(out)@ == old(out)@ + be_bytes(value as nat, width as nat),
{
    let base: usize = out.len();
    let mut filled: usize = 0;
    while filled < width
        invariant
            filled <= width,
            out.len() == base + filled,
            out@.subrange(0, base as int) == old(out)@,
        decreases width - filled,
    {
        out.push(0);
        filled += 1;
        assert(out@.subrange(0, base as int) =~= old(out)@);
    }
    let mut rest: u64 = value;
    let mut i: usize = width;
    while i > 0
        invariant
            i <= width,
            out.len() == base + width,
            out@.subrange(0, base as int) == old(out)@,
            be_bytes(value as nat, width as nat) == be_bytes(rest as nat, i as nat) + out@.subrange(
                base + i,
                base + width,
            ),
        decreases i,
    {
        let ghost before = out@;
        let ghost high = be_bytes((rest / 256) as nat, (i - 1) as nat);
        i -= 1;
        out.set(base + i, (rest % 256) as u8);
        proof {
            assert(out@.subrange(0, base as int) =~= old(out)@);
            assert(out@.subrange(base + i, base + width) =~= seq![(rest % 256) as u8]
                + before.subrange(base + i + 1, base + width));
            assert(high.push((rest % 256) as u8) + before.subrange(base + i + 1, base + width)
                =~= high + out@.subrange(base + i, base + width));
        }
        rest = rest / 256;
    }
    proof {
        assert(out@ =~= old(out)@ + out@.subrange(base as int, base + width));
        assert(be_bytes(rest as nat, 0) + out@.subrange(base as int, base + width)
            =~= out@.subrange(base as int, base + width));
    }
}

} // verus!
