//! Little-endian integers in byte sequences.

use vstd::prelude::*;

verus! {

/// The `width` lowest bytes of `n`, least significant first.
pub open spec fn le_bytes(n: nat, width: nat) -> Seq<u8>
    decreases width,
{
    if width == 0 {
        seq![]
    } else {
        seq![(n % 256) as u8] + le_bytes(n / 256, (width - 1) as nat)
    }
}

/// The number that `s` holds, least significant byte first.
pub open spec fn le_value(s: Seq<u8>) -> nat
    decreases s.len(),
{
    if s.len() == 0 {
        0
    } else {
        s[0] as nat + 256 * le_value(s.skip(1))
    }
}

/// 256 to the power of `width`.
pub open spec fn byte_range(width: nat) -> nat
    decreases width,
{
    if width == 0 {
        1
    } else {
        256 * byte_range((width - 1) as nat)
    }
}

/// A little-endian field has exactly its width.
pub proof fn lemma_le_bytes_len(n: nat, width: nat)
    ensures
        le_bytes(n, width).len() == width,
    decreases width,
{
    if width > 0 {
        lemma_le_bytes_len(n / 256, (width - 1) as nat);
    }
}

/// Reading a field gives back the number written, if the field is wide enough for it.
pub proof fn law_le_read_of_write(n: nat, width: nat)
    requires
        n < byte_range(width),
    ensures
        le_value(le_bytes(n, width)) == n,
    decreases width,
{
    if width > 0 {
        let rest = le_bytes(n / 256, (width - 1) as nat);
        assert(n / 256 < byte_range((width - 1) as nat));
        law_le_read_of_write(n / 256, (width - 1) as nat);
        assert(le_bytes(n, width).skip(1) =~= rest);
    }
}

/// Writing the number read from a field gives back the same bytes.
pub proof fn law_le_write_of_read(s: Seq<u8>)
    ensures
        le_bytes(le_value(s), s.len()) == s,
        le_value(s) < byte_range(s.len()),
    decreases s.len(),
{
    if s.len() > 0 {
        law_le_write_of_read(s.skip(1));
        assert(le_value(s) % 256 == s[0] as nat);
        assert(le_value(s) / 256 == le_value(s.skip(1)));
        assert(le_bytes(le_value(s), s.len()) =~= s);
    } else {
        assert(le_bytes(le_value(s), s.len()) =~= s);
    }
}

/// The ranges of the field widths in use.
pub proof fn lemma_byte_ranges()
    ensures
        byte_range(1) == 0x100,
        byte_range(2) == 0x1_0000,
        byte_range(4) == 0x1_0000_0000,
        byte_range(8) == 0x1_0000_0000_0000_0000,
{
    reveal_with_fuel(byte_range, 9);
}

/// Appends the `width` lowest bytes of `value` to `out`.
pub fn push_le(out: &mut Vec<u8>, value: u64, width: usize)
    ensures
        final(out)@ == old(out)@ + le_bytes(value as nat, width as nat),
{
    let mut rest: u64 = value;
    let mut i: usize = 0;
    while i < width
        invariant
            i <= width,
            out@ + le_bytes(rest as nat, (width - i) as nat) == old(out)@ + le_bytes(
                value as nat,
                width as nat,
            ),
        decreases width - i,
    {
        let ghost before = out@;
        out.push((rest % 256) as u8);
        assert(before + le_bytes(rest as nat, (width - i) as nat) =~= out@ + le_bytes(
            (rest / 256) as nat,
            (width - i - 1) as nat,
        ));
        rest = rest / 256;
        i = i + 1;
    }
    assert(out@ + le_bytes(rest as nat, 0) =~= out@);
}

/// Writes the `width` lowest bytes of `value` into `out`, from `at` on.
pub fn write_le(out: &mut [u8], at: usize, value: u64, width: usize)
    requires
        at + width <= old(out)@.len(),
    ensures
        final(out)@ == old(out)@.take(at as int) + le_bytes(value as nat, width as nat)
            + old(out)@.skip(at + width),
{
    let len: usize = out.len();
    let mut rest: u64 = value;
    let mut i: usize = 0;
    proof {
        lemma_le_bytes_len(value as nat, width as nat);
        assert(out@ =~= old(out)@.take(at as int) + old(out)@.skip(at as int));
    }
    while i < width
        invariant
            i <= width,
            at + width <= old(out)@.len(),
            out@.len() == old(out)@.len() == len,
            out@.take(at + i) + le_bytes(rest as nat, (width - i) as nat) == old(out)@.take(
                at as int,
            ) + le_bytes(value as nat, width as nat),
            out@.skip(at + i) == old(out)@.skip(at + i),
        decreases width - i,
    {
        let ghost before = out@;
        out[at + i] = (rest % 256) as u8;
        proof {
            lemma_le_bytes_len(rest as nat, (width - i) as nat);
            assert(before.take(at + i) + le_bytes(rest as nat, (width - i) as nat) =~= out@.take(
                at + i + 1,
            ) + le_bytes((rest / 256) as nat, (width - i - 1) as nat));
            assert(out@.skip(at + i + 1) =~= before.skip(at + i).skip(1));
            assert(old(out)@.skip(at + i + 1) =~= old(out)@.skip(at + i).skip(1));
        }
        rest = rest / 256;
        i = i + 1;
    }
    assert(out@ =~= out@.take(at + width) + out@.skip(at + width));
    assert(out@.take(at + width) + le_bytes(rest as nat, 0) =~= out@.take(at + width));
}

/// Reads the little-endian number in the `width` bytes of `bytes` from `at` on.
pub fn read_le(bytes: &[u8], at: usize, width: usize) -> (value: u64)
    requires
        at + width <= bytes@.len(),
        width <= 8,
    ensures
        value as nat == le_value(bytes@.subrange(at as int, at + width)),
        value < byte_range(width as nat),
    decreases width,
{
    proof {
        law_le_write_of_read(bytes@.subrange(at as int, at + width));
    }
    if width == 0 {
        return 0;
    }
    let len: usize = bytes.len();
    assert(at + width <= len);
    let rest: u64 = read_le(bytes, at + 1, width - 1);
    proof {
        lemma_byte_ranges();
        reveal_with_fuel(byte_range, 9);
        assert(bytes@.subrange(at as int, at + width).skip(1) =~= bytes@.subrange(
            at + 1,
            at + width,
        ));
    }
    bytes[at] as u64 + 256 * rest
}

} // verus!
