//! Variable-length encoding of 64-bit unsigned integers.
//!
//! An integer takes one to nine bytes. The number of trailing zero bits of
//! the first byte, plus one, is the total length. For lengths up to eight the
//! bytes are the little-endian form of `(2 * value + 1) * 2^(length - 1)`; a
//! nine-byte encoding is a zero byte followed by the value's eight
//! little-endian bytes. Only the shortest encoding of a value is valid.

use vstd::prelude::*;
use crate::error::Error;
use crate::message::Element;

verus! {

broadcast use vstd::slice::group_slice_axioms;

/// Number of bytes in the encoding of `value`.
pub open spec fn vint_len(value: u64) -> nat {
    if value < 0x80 {
        1
    } else if value < 0x4000 {
        2
    } else if value < 0x20_0000 {
        3
    } else if value < 0x1000_0000 {
        4
    } else if value < 0x8_0000_0000 {
        5
    } else if value < 0x400_0000_0000 {
        6
    } else if value < 0x2_0000_0000_0000 {
        7
    } else if value < 0x100_0000_0000_0000 {
        8
    } else {
        9
    }
}

/// The `count` little-endian bytes of `x` (its low bytes if it has more).
pub open spec fn le_bytes(x: nat, count: nat) -> Seq<u8>
    decreases count,
{
    if count == 0 {
        Seq::empty()
    } else {
        seq![(x % 256) as u8] + le_bytes(x / 256, (count - 1) as nat)
    }
}

/// The number that `bytes` is the little-endian form of.
pub open spec fn le_value(bytes: Seq<u8>) -> nat
    decreases bytes.len(),
{
    if bytes.len() == 0 {
        0
    } else {
        bytes[0] as nat + 256 * le_value(bytes.skip(1))
    }
}

/// `256^count`.
pub open spec fn radix(count: nat) -> nat
    decreases count,
{
    if count == 0 {
        1
    } else {
        256 * radix((count - 1) as nat)
    }
}

/// `(2 * value + 1) * 2^(len - 1)`: the value with its length marker below it.
pub open spec fn marked(value: nat, len: nat) -> nat {
    if len == 1 {
        2 * value + 1
    } else if len == 2 {
        4 * value + 2
    } else if len == 3 {
        8 * value + 4
    } else if len == 4 {
        16 * value + 8
    } else if len == 5 {
        32 * value + 16
    } else if len == 6 {
        64 * value + 32
    } else if len == 7 {
        128 * value + 64
    } else {
        256 * value + 128
    }
}

/// `x / 2^len`: what is left of a marked value once the marker is dropped.
pub open spec fn unmarked(x: nat, len: nat) -> nat {
    if len == 1 {
        x / 2
    } else if len == 2 {
        x / 4
    } else if len == 3 {
        x / 8
    } else if len == 4 {
        x / 16
    } else if len == 5 {
        x / 32
    } else if len == 6 {
        x / 64
    } else if len == 7 {
        x / 128
    } else {
        x / 256
    }
}

/// The encoding of `value`.
#[verifier::opaque]
pub open spec fn vint(value: u64) -> Seq<u8> {
    let len = vint_len(value);
    if len == 9 {
        seq![0u8] + le_bytes(value as nat, 8)
    } else {
        le_bytes(marked(value as nat, len), len)
    }
}

/// The length that a first byte announces: its trailing zero bits plus one.
pub open spec fn announced_len(first: u8) -> nat {
    if first % 2 == 1 {
        1
    } else if first % 4 == 2 {
        2
    } else if first % 8 == 4 {
        3
    } else if first % 16 == 8 {
        4
    } else if first % 32 == 16 {
        5
    } else if first % 64 == 32 {
        6
    } else if first % 128 == 64 {
        7
    } else if first == 128 {
        8
    } else {
        9
    }
}

/// The integer that the announced bytes at the front of `input` stand for,
/// canonical or not. Meaningful when `input` holds the announced length.
pub open spec fn raw_value(input: Seq<u8>) -> nat {
    let len = announced_len(input[0]);
    if len == 9 {
        le_value(input.subrange(1, 9))
    } else {
        unmarked(le_value(input.take(len as int)), len)
    }
}

/// Reads one integer from the front of `input`: the value and the number of
/// bytes it takes, or the reason why there is none. `element` is the part of
/// the message being read, named in the error.
#[verifier::opaque]
pub open spec fn parse_vint(input: Seq<u8>, element: Element) -> Result<(u64, nat), Error> {
    if input.len() == 0 {
        Err(Error::TruncatedInput { element })
    } else {
        let len = announced_len(input[0]);
        if input.len() < len {
            Err(Error::TruncatedInput { element })
        } else {
            let value = raw_value(input);
            if value > u64::MAX || vint_len(value as u64) != len {
                Err(Error::InvalidEncoding { element })
            } else {
                Ok((value as u64, len))
            }
        }
    }
}

/// As many bytes are written as are asked for.
pub proof fn lemma_le_bytes_len(x: nat, count: nat)
    ensures
        le_bytes(x, count).len() == count,
    decreases count,
{
    if count > 0 {
        lemma_le_bytes_len(x / 256, (count - 1) as nat);
    }
}

/// What bytes stand for is below 256 to the power of their number.
pub proof fn lemma_le_value_bound(bytes: Seq<u8>)
    ensures
        le_value(bytes) < radix(bytes.len()),
    decreases bytes.len(),
{
    if bytes.len() > 0 {
        lemma_le_value_bound(bytes.skip(1));
    }
}

/// The powers of 256 up to the eighth.
pub proof fn lemma_radix_values()
    ensures
        radix(0) == 1,
        radix(1) == 0x100,
        radix(2) == 0x1_0000,
        radix(3) == 0x100_0000,
        radix(4) == 0x1_0000_0000,
        radix(5) == 0x100_0000_0000,
        radix(6) == 0x1_0000_0000_0000,
        radix(7) == 0x100_0000_0000_0000,
        radix(8) == 0x1_0000_0000_0000_0000,
{
    reveal_with_fuel(radix, 10);
}

/// Reading back the bytes of a number that fits gives the number.
pub proof fn lemma_le_value_of_bytes(x: nat, count: nat)
    requires
        x < radix(count),
    ensures
        le_value(le_bytes(x, count)) == x,
    decreases count,
{
    if count > 0 {
        let rest = le_bytes(x / 256, (count - 1) as nat);
        let all = le_bytes(x, count);
        lemma_le_value_of_bytes(x / 256, (count - 1) as nat);
        assert(all.skip(1) =~= rest);
        assert(all[0] == (x % 256) as u8);
    }
}

/// Writing out the number that bytes stand for gives the bytes.
pub proof fn lemma_le_bytes_of_value(bytes: Seq<u8>)
    ensures
        le_bytes(le_value(bytes), bytes.len()) == bytes,
    decreases bytes.len(),
{
    if bytes.len() > 0 {
        let rest = bytes.skip(1);
        lemma_le_bytes_of_value(rest);
        let v = le_value(bytes);
        assert(v % 256 == bytes[0] as nat);
        assert(v / 256 == le_value(rest));
        assert(le_bytes(v, bytes.len()) =~= bytes);
    } else {
        assert(le_bytes(le_value(bytes), 0) =~= bytes);
    }
}

/// The encoding of a value has the length that `vint_len` gives.
pub proof fn lemma_vint_len(value: u64)
    ensures
        vint(value).len() == vint_len(value),
        1 <= vint_len(value) <= 9,
{
    reveal(vint);
    lemma_le_bytes_len(value as nat, 8);
    lemma_le_bytes_len(marked(value as nat, vint_len(value)), vint_len(value));
}

/// The powers of 256 up to the eighth are within 64 bits, and each is 256
/// times the one before it.
proof fn lemma_radix_bound(count: nat)
    requires
        count <= 8,
    ensures
        radix(count) <= 0x1_0000_0000_0000_0000,
        count > 0 ==> radix(count) == 256 * radix((count - 1) as nat),
{
    lemma_radix_values();
    if count == 0 {
    } else if count == 1 {
    } else if count == 2 {
    } else if count == 3 {
    } else if count == 4 {
    } else if count == 5 {
    } else if count == 6 {
    } else if count == 7 {
    } else {
    }
}

/// Where `x` is `scale * value + marker` with `scale` a power of two up to
/// 256, the marker is in the low bits of the low byte of `x`.
proof fn lemma_marker_kept(x: nat, value: nat, scale: nat, cofactor: nat, marker: nat)
    requires
        scale * cofactor == 256,
        x == scale * value + marker,
        marker < scale,
    ensures
        (x % 256) % scale == marker,
        x / scale == value,
{
    assert(scale > 0 && cofactor > 0) by (nonlinear_arith)
        requires
            scale * cofactor == 256,
    ;
    assert(value * scale == scale * value) by (nonlinear_arith);
    vstd::arithmetic::div_mod::lemma_fundamental_div_mod_converse(
        x as int,
        scale as int,
        value as int,
        marker as int,
    );
    vstd::arithmetic::div_mod::lemma_mod_mod(x as int, scale as int, cofactor as int);
}

/// Where the low bits of the low byte of `x` are `marker`, `x` is
/// `scale * (x / scale) + marker`.
proof fn lemma_marker_found(x: nat, scale: nat, cofactor: nat, marker: nat)
    requires
        scale * cofactor == 256,
        (x % 256) % scale == marker,
    ensures
        scale * (x / scale) + marker == x,
{
    assert(scale > 0 && cofactor > 0) by (nonlinear_arith)
        requires
            scale * cofactor == 256,
    ;
    vstd::arithmetic::div_mod::lemma_mod_mod(x as int, scale as int, cofactor as int);
    vstd::arithmetic::div_mod::lemma_fundamental_div_mod(x as int, scale as int);
}

/// A marked value fits its length, announces it in its low byte, and gives
/// the value back when the marker is dropped.
#[verifier::rlimit(50)]
proof fn lemma_marked(value: u64, len: nat)
    requires
        len == vint_len(value),
        len <= 8,
    ensures
        marked(value as nat, len) < radix(len),
        announced_len((marked(value as nat, len) % 256) as u8) == len,
        unmarked(marked(value as nat, len), len) == value,
{
    lemma_radix_values();
    let x = marked(value as nat, len);
    let low = (x % 256) as u8;
    if len == 1 {
        lemma_marker_kept(x, value as nat, 2, 128, 1);
    } else if len == 2 {
        lemma_marker_kept(x, value as nat, 4, 64, 2);
    } else if len == 3 {
        lemma_marker_kept(x, value as nat, 8, 32, 4);
    } else if len == 4 {
        lemma_marker_kept(x, value as nat, 16, 16, 8);
    } else if len == 5 {
        lemma_marker_kept(x, value as nat, 32, 8, 16);
    } else if len == 6 {
        lemma_marker_kept(x, value as nat, 64, 4, 32);
    } else if len == 7 {
        lemma_marker_kept(x, value as nat, 128, 2, 64);
    } else {
        lemma_marker_kept(x, value as nat, 256, 1, 128);
    }
    lemma_announced(low, len);
}

/// A byte announces the length whose marker its low bits are.
proof fn lemma_announced(first: u8, len: nat)
    requires
        1 <= len <= 8,
        len == 1 ==> first % 2 == 1,
        len == 2 ==> first % 4 == 2,
        len == 3 ==> first % 8 == 4,
        len == 4 ==> first % 16 == 8,
        len == 5 ==> first % 32 == 16,
        len == 6 ==> first % 64 == 32,
        len == 7 ==> first % 128 == 64,
        len == 8 ==> first == 128,
    ensures
        announced_len(first) == len,
{
    assert(first % 4 == 2 ==> first % 2 != 1) by (bit_vector);
    assert(first % 8 == 4 ==> first % 2 != 1 && first % 4 != 2) by (bit_vector);
    assert(first % 16 == 8 ==> first % 2 != 1 && first % 4 != 2 && first % 8 != 4)
        by (bit_vector);
    assert(first % 32 == 16 ==> first % 2 != 1 && first % 4 != 2 && first % 8 != 4 && first % 16
        != 8) by (bit_vector);
    assert(first % 64 == 32 ==> first % 2 != 1 && first % 4 != 2 && first % 8 != 4 && first % 16
        != 8 && first % 32 != 16) by (bit_vector);
    assert(first % 128 == 64 ==> first % 2 != 1 && first % 4 != 2 && first % 8 != 4 && first % 16
        != 8 && first % 32 != 16 && first % 64 != 32) by (bit_vector);
    assert(first == 128 ==> first % 2 != 1 && first % 4 != 2 && first % 8 != 4 && first % 16
        != 8 && first % 32 != 16 && first % 64 != 32 && first % 128 != 64) by (bit_vector);
}

/// Only a zero byte announces nine bytes.
proof fn lemma_announced_nine(first: u8)
    requires
        announced_len(first) == 9,
    ensures
        first == 0,
{
    assert(first % 2 != 1 && first % 4 != 2 && first % 8 != 4 && first % 16 != 8 && first % 32
        != 16 && first % 64 != 32 && first % 128 != 64 && first != 128 ==> first == 0)
        by (bit_vector);
}

/// A number whose low byte announces `len` is the marked form of what is
/// left once the marker is dropped.
#[verifier::rlimit(50)]
proof fn lemma_unmarked(x: nat, first: u8, len: nat)
    requires
        x % 256 == first,
        len == announced_len(first),
        len <= 8,
    ensures
        marked(unmarked(x, len), len) == x,
{
    if len == 1 {
        lemma_marker_found(x, 2, 128, 1);
    } else if len == 2 {
        lemma_marker_found(x, 4, 64, 2);
    } else if len == 3 {
        lemma_marker_found(x, 8, 32, 4);
    } else if len == 4 {
        lemma_marker_found(x, 16, 16, 8);
    } else if len == 5 {
        lemma_marker_found(x, 32, 8, 16);
    } else if len == 6 {
        lemma_marker_found(x, 64, 4, 32);
    } else if len == 7 {
        lemma_marker_found(x, 128, 2, 64);
    } else {
        lemma_marker_found(x, 256, 1, 128);
    }
}

/// Decoding what was encoded gives the value back, whatever follows it.
#[verifier::rlimit(50)]
pub proof fn lemma_parse_vint_of_vint(value: u64, rest: Seq<u8>, element: Element)
    ensures
        parse_vint(vint(value) + rest, element) == Ok::<(u64, nat), Error>(
            (value, vint_len(value)),
        ),
{
    reveal(vint);
    reveal(parse_vint);
    let len = vint_len(value);
    let enc = vint(value);
    let input = enc + rest;
    lemma_vint_len(value);
    assert(input[0] == enc[0]);
    if len == 9 {
        lemma_radix_values();
        assert(enc[0] == 0u8);
        assert(announced_len(0u8) == 9);
        assert(input.subrange(1, 9) =~= le_bytes(value as nat, 8));
        lemma_le_value_of_bytes(value as nat, 8);
    } else {
        let x = marked(value as nat, len);
        lemma_marked(value, len);
        assert(enc[0] == (x % 256) as u8);
        assert(input.take(len as int) =~= enc);
        lemma_le_value_of_bytes(x, len);
    }
}

/// Only the encoding of a value decodes to it: what parses is canonical.
#[verifier::rlimit(50)]
pub proof fn lemma_vint_of_parse_vint(input: Seq<u8>, element: Element)
    requires
        parse_vint(input, element) is Ok,
    ensures
        ({
            let (value, len) = parse_vint(input, element)->Ok_0;
            &&& len == vint_len(value)
            &&& 1 <= len <= 9
            &&& len <= input.len()
            &&& input.take(len as int) == vint(value)
        }),
{
    reveal(vint);
    reveal(parse_vint);
    let (value, len) = parse_vint(input, element)->Ok_0;
    let first = input[0];
    if len == 9 {
        lemma_announced_nine(first);
        let tail = input.subrange(1, 9);
        lemma_le_bytes_of_value(tail);
        assert(input.take(9) =~= seq![0u8] + tail);
    } else {
        let head = input.take(len as int);
        let x = le_value(head);
        lemma_le_bytes_of_value(head);
        assert(head[0] == first);
        assert(x % 256 == first as nat);
        lemma_unmarked(x, first, len);
    }
}

/// A successful parse does not depend on what follows the integer.
pub proof fn lemma_parse_vint_extends(input: Seq<u8>, more: Seq<u8>, element: Element)
    requires
        parse_vint(input, element) is Ok,
    ensures
        parse_vint(input + more, element) == parse_vint(input, element),
{
    let (value, len) = parse_vint(input, element)->Ok_0;
    lemma_vint_of_parse_vint(input, element);
    assert(input + more =~= vint(value) + (input.skip(len as int) + more));
    lemma_parse_vint_of_vint(value, input.skip(len as int) + more, element);
}

/// Number of bytes that the encoding of `value` takes.
pub fn encoded_len(value: u64) -> (len: usize)
    ensures
        len == vint_len(value),
{
    if value < 0x80 {
        1
    } else if value < 0x4000 {
        2
    } else if value < 0x20_0000 {
        3
    } else if value < 0x1000_0000 {
        4
    } else if value < 0x8_0000_0000 {
        5
    } else if value < 0x400_0000_0000 {
        6
    } else if value < 0x2_0000_0000_0000 {
        7
    } else if value < 0x100_0000_0000_0000 {
        8
    } else {
        9
    }
}

/// The length that a first byte announces.
fn announced(first: u8) -> (len: usize)
    ensures
        len == announced_len(first),
{
    if first % 2 == 1 {
        1
    } else if first % 4 == 2 {
        2
    } else if first % 8 == 4 {
        3
    } else if first % 16 == 8 {
        4
    } else if first % 32 == 16 {
        5
    } else if first % 64 == 32 {
        6
    } else if first % 128 == 64 {
        7
    } else if first == 128 {
        8
    } else {
        9
    }
}

/// The number that the `count` bytes of `input` from index `from` on are
/// the little-endian form of.
fn read_le(input: &[u8], from: usize, count: usize) -> (x: u64)
    requires
        count <= 8,
        from + count <= input.len(),
    ensures
        x == le_value(input@.subrange(from as int, from + count)),
{
    let mut x: u64 = 0;
    let mut k: usize = count;
    proof {
        lemma_radix_values();
    }
    while k > 0
        invariant
            k <= count <= 8,
            from + count <= input.len(),
            x == le_value(input@.subrange(from + k, from + count)),
            x < radix((count - k) as nat),
        decreases k,
    {
        k = k - 1;
        proof {
            let wider = input@.subrange(from + k, from + count);
            assert(wider.skip(1) =~= input@.subrange(from + k + 1, from + count));
            assert(wider[0] == input@[from + k]);
            lemma_le_value_bound(wider);
            lemma_radix_bound((count - k) as nat);
        }
        x = x * 256 + input[from + k] as u64;
    }
    x
}

/// Reads one integer from the front of `input`.
#[verifier::rlimit(50)]
pub fn decode(input: &[u8], element: Element) -> (r: Result<(u64, usize), Error>)
    ensures
        match parse_vint(input@, element) {
            Ok((value, len)) => r == Ok::<(u64, usize), Error>((value, len as usize)) && 1 <= len
                <= 9 && len <= input.len(),
            Err(e) => r == Err::<(u64, usize), Error>(e),
        },
{
    proof {
        reveal(parse_vint);
    }
    if input.len() == 0 {
        return Err(Error::TruncatedInput { element });
    }
    let len: usize = announced(input[0]);
    if input.len() < len {
        return Err(Error::TruncatedInput { element });
    }
    let value: u64 = if len == 9 {
        read_le(input, 1, 8)
    } else {
        let x: u64 = read_le(input, 0, len);
        if len == 1 {
            x / 2
        } else if len == 2 {
            x / 4
        } else if len == 3 {
            x / 8
        } else if len == 4 {
            x / 16
        } else if len == 5 {
            x / 32
        } else if len == 6 {
            x / 64
        } else if len == 7 {
            x / 128
        } else {
            x / 256
        }
    };
    proof {
        assert(input@.take(len as int) =~= input@.subrange(0, len as int));
        assert(value == raw_value(input@));
    }
    if encoded_len(value) != len {
        return Err(Error::InvalidEncoding { element });
    }
    Ok((value, len))
}

/// `buffer` with `bytes` written over it from index `at` on.
pub open spec fn overwritten(buffer: Seq<u8>, at: int, bytes: Seq<u8>) -> Seq<u8> {
    buffer.take(at) + bytes + buffer.skip(at + bytes.len())
}

/// Writes the `count` little-endian bytes of `x` into `buffer` from index
/// `at` on.
#[verifier::rlimit(50)]
fn write_le(buffer: &mut [u8], at: usize, x: u64, count: usize)
    requires
        count <= 8,
        at + count <= old(buffer).len(),
    ensures
        final(buffer)@.len() == old(buffer)@.len(),
        final(buffer)@ == overwritten(old(buffer)@, at as int, le_bytes(x as nat, count as nat)),
{
    let ghost before = buffer@;
    let mut rest: u64 = x;
    let mut i: usize = 0;
    while i < count
        invariant
            i <= count <= 8,
            at + count <= before.len(),
            buffer@.len() == before.len(),
            buffer.len() == before.len(),
            forall|j: int| 0 <= j < at || at + i <= j < before.len() ==> buffer@[j] == before[j],
            buffer@.subrange(at as int, at + i) + le_bytes(rest as nat, (count - i) as nat)
                == le_bytes(x as nat, count as nat),
        decreases count - i,
    {
        let ghost done = buffer@.subrange(at as int, at + i);
        let byte: u8 = (rest % 256) as u8;
        buffer[at + i] = byte;
        proof {
            let tail = le_bytes((rest / 256) as nat, (count - i - 1) as nat);
            assert(buffer@.subrange(at as int, at + i + 1) =~= done.push(byte));
            assert(done.push(byte) + tail =~= done + (seq![byte] + tail));
        }
        rest = rest / 256;
        i = i + 1;
    }
    proof {
        lemma_le_bytes_len(x as nat, count as nat);
        assert(le_bytes(rest as nat, 0) =~= Seq::<u8>::empty());
        assert(buffer@ =~= overwritten(before, at as int, le_bytes(x as nat, count as nat)));
    }
}

/// Writes the encoding of `value` into `buffer` from index `at` on and
/// returns its length, or refuses when it does not fit.
pub fn encode(value: u64, buffer: &mut [u8], at: usize) -> (r: Result<usize, Error>)
    ensures
        final(buffer)@.len() == old(buffer)@.len(),
        match r {
            Ok(len) => {
                &&& len == vint_len(value)
                &&& at + len <= old(buffer)@.len()
                &&& final(buffer)@ == overwritten(old(buffer)@, at as int, vint(value))
            },
            Err(e) => {
                &&& e == Error::BufferTooSmall
                &&& at + vint_len(value) > old(buffer)@.len()
                &&& final(buffer)@ == old(buffer)@
            },
        },
{
    proof {
        reveal(vint);
    }
    let len: usize = encoded_len(value);
    if at > buffer.len() || buffer.len() - at < len {
        return Err(Error::BufferTooSmall);
    }
    let ghost before = buffer@;
    if len == 9 {
        buffer[at] = 0;
        write_le(buffer, at + 1, value, 8);
        proof {
            lemma_le_bytes_len(value as nat, 8);
            assert(buffer@ =~= overwritten(before, at as int, vint(value)));
        }
    } else {
        let x: u64 = if len == 1 {
            2 * value + 1
        } else if len == 2 {
            4 * value + 2
        } else if len == 3 {
            8 * value + 4
        } else if len == 4 {
            16 * value + 8
        } else if len == 5 {
            32 * value + 16
        } else if len == 6 {
            64 * value + 32
        } else if len == 7 {
            128 * value + 64
        } else {
            256 * value + 128
        };
        write_le(buffer, at, x, len);
    }
    Ok(len)
}

} // verus!
