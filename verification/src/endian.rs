//! Fixed-width big-endian integers and two's-complement conversion.

use vstd::prelude::*;

verus! {

/// `256` to the power `width`: the number of values that `width` bytes hold.
pub open spec fn radix(width: nat) -> nat
    decreases width,
{
    if width == 0 {
        1
    } else {
        256 * radix((width - 1) as nat)
    }
}

/// The `width` low-order bytes of `n`, most significant first.
pub open spec fn be_bytes(n: nat, width: nat) -> Seq<u8>
    decreases width,
{
    if width == 0 {
        Seq::empty()
    } else {
        be_bytes(n / 256, (width - 1) as nat).push((n % 256) as u8)
    }
}

/// The number that `bytes` spell, most significant byte first.
pub open spec fn be_value(bytes: Seq<u8>) -> nat
    decreases bytes.len(),
{
    if bytes.len() == 0 {
        0
    } else {
        be_value(bytes.drop_last()) * 256 + bytes.last() as nat
    }
}

/// The unsigned number whose `width`-byte pattern is the two's complement of `i`.
pub open spec fn to_unsigned(i: int, width: nat) -> nat {
    if i < 0 {
        (i + radix(width)) as nat
    } else {
        i as nat
    }
}

/// The signed number that the `width`-byte pattern `n` stands for in two's
/// complement.
pub open spec fn to_signed(n: nat, width: nat) -> int {
    if 2 * n >= radix(width) {
        n - radix(width)
    } else {
        n as int
    }
}

/// The values of `radix` at the widths that the wire format uses.
pub proof fn lemma_radix_values()
    ensures
        radix(0) == 1,
        radix(1) == 0x100,
        radix(2) == 0x1_0000,
        radix(4) == 0x1_0000_0000,
        radix(8) == 0x1_0000_0000_0000_0000,
{
    reveal_with_fuel(radix, 9);
}

/// `be_bytes` yields exactly `width` bytes.
pub proof fn lemma_be_bytes_len(n: nat, width: nat)
    ensures
        be_bytes(n, width).len() == width,
    decreases width,
{
    if width > 0 {
        lemma_be_bytes_len(n / 256, (width - 1) as nat);
    }
}

/// A number that fits in `width` bytes is read back from them unchanged.
pub proof fn lemma_be_round_trip(n: nat, width: nat)
    requires
        n < radix(width),
    ensures
        be_value(be_bytes(n, width)) == n,
    decreases width,
{
    if width > 0 {
        let head = be_bytes(n / 256, (width - 1) as nat);
        lemma_be_round_trip(n / 256, (width - 1) as nat);
        assert(be_bytes(n, width).drop_last() =~= head);
        assert(be_bytes(n, width).last() == (n % 256) as u8);
    }
}

/// The number that `bytes` spell fits in as many bytes.
pub proof fn lemma_be_value_bound(bytes: Seq<u8>)
    ensures
        be_value(bytes) < radix(bytes.len()),
    decreases bytes.len(),
{
    if bytes.len() > 0 {
        lemma_be_value_bound(bytes.drop_last());
    }
}

/// Two's complement is read back unchanged within the signed range of `width`
/// bytes.
pub proof fn lemma_signed_round_trip(i: int, width: nat)
    requires
        width > 0,
        fits_signed(i, width),
    ensures
        to_unsigned(i, width) < radix(width),
        to_signed(to_unsigned(i, width), width) == i,
{
}

/// Whether `width` is one of the integer widths of the wire format.
pub open spec fn is_wire_width(width: nat) -> bool {
    width == 1 || width == 2 || width == 4 || width == 8
}

/// Whether `i` lies in the signed range of `width` bytes.
pub open spec fn fits_signed(i: int, width: nat) -> bool {
    -(radix(width) as int) <= 2 * i < radix(width)
}

/// Appends the `width` low-order bytes of `n`, most significant first.
pub fn push_be(sink: &mut Vec<u8>, n: u64, width: usize)
    ensures
        final(sink)@ == old(sink)@ + be_bytes(n as nat, width as nat),
    decreases width,
{
    if width > 0 {
        push_be(sink, n / 256, width - 1);
        sink.push((n % 256) as u8);
        assert(sink@ =~= old(sink)@ + be_bytes(n as nat, width as nat));
    } else {
        assert(sink@ =~= old(sink)@ + be_bytes(n as nat, width as nat));
    }
}

/// The number that at most eight bytes spell, most significant byte first.
pub fn read_be(bytes: &[u8]) -> (r: u64)
    requires
        bytes@.len() <= 8,
    ensures
        r == be_value(bytes@),
        r < radix(bytes@.len()),
{
    let mut acc: u64 = 0;
    let mut i: usize = 0;
    while i < bytes.len()
        invariant
            i <= bytes@.len() <= 8,
            acc == be_value(bytes@.subrange(0, i as int)),
        decreases bytes@.len() - i,
    {
        proof {
            let front = bytes@.subrange(0, i as int);
            let next = bytes@.subrange(0, i + 1);
            lemma_be_value_bound(front);
            lemma_radix_monotonic(front.len(), 7);
            lemma_radix_values();
            reveal_with_fuel(radix, 8);
            assert(next.drop_last() =~= front);
            assert(next.last() == bytes@[i as int]);
        }
        acc = acc * 256 + bytes[i] as u64;
        i += 1;
    }
    proof {
        assert(bytes@.subrange(0, i as int) =~= bytes@);
        lemma_be_value_bound(bytes@);
    }
    acc
}

/// `radix` grows with the width.
pub proof fn lemma_radix_monotonic(small: nat, large: nat)
    requires
        small <= large,
    ensures
        0 < radix(small) <= radix(large),
    decreases large,
{
    if large > 0 {
        if small < large {
            lemma_radix_monotonic(small, (large - 1) as nat);
        } else {
            lemma_radix_monotonic((small - 1) as nat, (large - 1) as nat);
        }
    }
}

/// The two's-complement pattern of `i` in `width` bytes.
pub fn unsigned_of(i: i64, width: usize) -> (r: u64)
    requires
        is_wire_width(width as nat),
        fits_signed(i as int, width as nat),
    ensures
        r == to_unsigned(i as int, width as nat),
        r < radix(width as nat),
{
    proof {
        lemma_radix_values();
    }
    if i >= 0 {
        i as u64
    } else if width == 1 {
        (i + 0x100) as u64
    } else if width == 2 {
        (i + 0x1_0000) as u64
    } else if width == 4 {
        (i + 0x1_0000_0000) as u64
    } else {
        (i as i128 + 0x1_0000_0000_0000_0000) as u64
    }
}

/// The signed number that the `width`-byte pattern `n` stands for.
pub fn signed_of(n: u64, width: usize) -> (r: i64)
    requires
        is_wire_width(width as nat),
        n < radix(width as nat),
    ensures
        r == to_signed(n as nat, width as nat),
        fits_signed(r as int, width as nat),
{
    proof {
        lemma_radix_values();
    }
    if width == 1 {
        if n >= 0x80 {
            n as i64 - 0x100
        } else {
            n as i64
        }
    } else if width == 2 {
        if n >= 0x8000 {
            n as i64 - 0x1_0000
        } else {
            n as i64
        }
    } else if width == 4 {
        if n >= 0x8000_0000 {
            n as i64 - 0x1_0000_0000
        } else {
            n as i64
        }
    } else {
        if n >= 0x8000_0000_0000_0000 {
            (n as i128 - 0x1_0000_0000_0000_0000) as i64
        } else {
            n as i64
        }
    }
}

/// A pattern read back as a signed number gives the same pattern again.
pub proof fn lemma_unsigned_round_trip(n: nat, width: nat)
    requires
        width > 0,
        n < radix(width),
    ensures
        fits_signed(to_signed(n, width), width),
        to_unsigned(to_signed(n, width), width) == n,
{
    lemma_radix_monotonic(1, width);
    reveal_with_fuel(radix, 2);
}

} // verus!
