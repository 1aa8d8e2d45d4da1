//! The wire format byte by byte: big-endian numbers, two's complement for
//! negative ones, the leading byte of each kind of value and of each length
//! prefix, and the one-byte integers that the reader accepts.
use crate::bigendian::{be_bytes, lemma_be_bytes_len, lemma_pow256_mono, pow256, twos};
use crate::decode::{head, read_spec};
use crate::encode::{array_header, bin_header, complete, ext_header, map_header, str_header, write_spec};
use crate::value::SpecValue;
use vstd::arithmetic::div_mod::lemma_div_denominator;
use vstd::arithmetic::power::pow;
use vstd::prelude::*;

verus! {

/// `pow256(n)` is 256 to the power `n`.
pub proof fn law_pow256_is_power(n: nat)
    ensures
        pow256(n) == pow(256, n),
    decreases n,
{
    reveal(pow);
    if n > 0 {
        law_pow256_is_power((n - 1) as nat);
    }
}

/// Numbers are written big-endian: of the `n` bytes of `x`, byte `i` is the
/// base-256 digit of `x` of weight `256^(n - 1 - i)`.
pub proof fn law_big_endian(x: nat, n: nat, i: int)
    requires
        0 <= i < n,
    ensures
        be_bytes(x, n).len() == n,
        be_bytes(x, n)[i] as int == (x as int / pow256((n - 1 - i) as nat) as int) % 256,
    decreases n,
{
    lemma_be_bytes_len(x, n);
    lemma_be_bytes_len(x / 256, (n - 1) as nat);
    let low = be_bytes(x / 256, (n - 1) as nat);
    assert(be_bytes(x, n) == low.push((x % 256) as u8));
    if i == n - 1 {
        assert(pow256(0) == 1);
        assert(x as int / 1 == x as int);
    } else {
        let e = (n - 2 - i) as nat;
        law_big_endian(x / 256, (n - 1) as nat, i);
        assert(be_bytes(x, n)[i] == low[i]);
        lemma_pow256_mono(0, e);
        lemma_div_denominator(x as int, 256, pow256(e) as int);
        assert((n - 1 - i) as nat == e + 1);
        assert(pow256(e + 1) == 256 * pow256(e));
        assert((x / 256) as int == x as int / 256);
    }
}

/// A number is written in `n` bytes as its two's-complement pattern: the one
/// number below `256^n` that is congruent to it.
pub proof fn law_twos_complement(x: int, n: nat)
    requires
        n > 0,
        -pow256(n) <= 2 * x < pow256(n),
    ensures
        0 <= twos(x, n) < pow256(n),
        (twos(x, n) - x) % (pow256(n) as int) == 0,
{
    lemma_pow256_mono(0, n);
    let p = pow256(n) as int;
    if x < 0 {
        assert((twos(x, n) - x) == p);
    } else {
        assert((twos(x, n) - x) == 0);
    }
}

/// Nil, the flags and the floats each start with their own leading byte; a
/// float is followed by its bit pattern in big-endian order.
pub proof fn law_plain_layout(b: bool, f32v: u32, f64v: u64)
    ensures
        write_spec(SpecValue::Nil) == complete(seq![0xc0u8]),
        write_spec(SpecValue::Boolean(b)) == complete(
            seq![
                if b {
                    0xc3u8
                } else {
                    0xc2u8
                },
            ],
        ),
        write_spec(SpecValue::Float32(f32v)) == complete(seq![0xcau8] + be_bytes(f32v as nat, 4)),
        write_spec(SpecValue::Float64(f64v)) == complete(seq![0xcbu8] + be_bytes(f64v as nat, 8)),
{
}

/// Each unsigned number starts with the leading byte of its width, followed
/// by the number in big-endian order.
pub proof fn law_unsigned_layout(u8v: u8, u16v: u16, u32v: u32, u64v: u64)
    ensures
        write_spec(SpecValue::Uint8(u8v)) == complete(seq![0xccu8] + be_bytes(u8v as nat, 1)),
        write_spec(SpecValue::Uint16(u16v)) == complete(seq![0xcdu8] + be_bytes(u16v as nat, 2)),
        write_spec(SpecValue::Uint32(u32v)) == complete(seq![0xceu8] + be_bytes(u32v as nat, 4)),
        write_spec(SpecValue::Uint64(u64v)) == complete(seq![0xcfu8] + be_bytes(u64v as nat, 8)),
{
    assert(be_bytes(u8v as nat, 1) == be_bytes(u8v as nat / 256, 0).push((u8v as nat % 256) as u8));
    assert(seq![0xccu8] + be_bytes(u8v as nat, 1) =~= seq![0xccu8, u8v]);
}

/// Each signed number starts with the leading byte of its width, followed
/// by its two's-complement pattern in big-endian order.
pub proof fn law_signed_layout(i8v: i8, i16v: i16, i32v: i32, i64v: i64)
    ensures
        write_spec(SpecValue::Int8(i8v)) == complete(seq![0xd0u8] + be_bytes(twos(i8v as int, 1), 1)),
        write_spec(SpecValue::Int16(i16v)) == complete(
            seq![0xd1u8] + be_bytes(twos(i16v as int, 2), 2),
        ),
        write_spec(SpecValue::Int32(i32v)) == complete(
            seq![0xd2u8] + be_bytes(twos(i32v as int, 4), 4),
        ),
        write_spec(SpecValue::Int64(i64v)) == complete(
            seq![0xd3u8] + be_bytes(twos(i64v as int, 8), 8),
        ),
{
    let t = twos(i8v as int, 1);
    reveal_with_fuel(pow256, 2);
    law_twos_complement(i8v as int, 1);
    assert(be_bytes(t, 1) == be_bytes(t / 256, 0).push((t % 256) as u8));
    assert(seq![0xd0u8] + be_bytes(t, 1) =~= seq![0xd0u8, t as u8]);
}

/// The length prefixes: a string of up to 31 bytes, an array or a map of up
/// to 15 items have it in their leading byte; longer ones have a leading
/// byte of their own followed by the length in 1, 2 or 4 bytes; extended
/// data of 1, 2, 4, 8 or 16 bytes has a leading byte for each of these
/// sizes. Lengths beyond 32 bits have no prefix.
pub proof fn law_length_prefixes(n: nat)
    ensures
        str_header(n) == if n <= 31 {
            Some(seq![(0xa0 + n) as u8])
        } else if n <= 0xff {
            Some(seq![0xd9u8] + be_bytes(n, 1))
        } else if n <= 0xffff {
            Some(seq![0xdau8] + be_bytes(n, 2))
        } else if n <= 0xffff_ffff {
            Some(seq![0xdbu8] + be_bytes(n, 4))
        } else {
            None
        },
        bin_header(n) == if n <= 0xff {
            Some(seq![0xc4u8] + be_bytes(n, 1))
        } else if n <= 0xffff {
            Some(seq![0xc5u8] + be_bytes(n, 2))
        } else if n <= 0xffff_ffff {
            Some(seq![0xc6u8] + be_bytes(n, 4))
        } else {
            None
        },
        array_header(n) == if n <= 15 {
            Some(seq![(0x90 + n) as u8])
        } else if n <= 0xffff {
            Some(seq![0xdcu8] + be_bytes(n, 2))
        } else if n <= 0xffff_ffff {
            Some(seq![0xddu8] + be_bytes(n, 4))
        } else {
            None
        },
        map_header(n) == if n <= 15 {
            Some(seq![(0x80 + n) as u8])
        } else if n <= 0xffff {
            Some(seq![0xdeu8] + be_bytes(n, 2))
        } else if n <= 0xffff_ffff {
            Some(seq![0xdfu8] + be_bytes(n, 4))
        } else {
            None
        },
        ext_header(n) == if n == 1 {
            Some(seq![0xd4u8])
        } else if n == 2 {
            Some(seq![0xd5u8])
        } else if n == 4 {
            Some(seq![0xd6u8])
        } else if n == 8 {
            Some(seq![0xd7u8])
        } else if n == 16 {
            Some(seq![0xd8u8])
        } else if n <= 0xff {
            Some(seq![0xc7u8] + be_bytes(n, 1))
        } else if n <= 0xffff {
            Some(seq![0xc8u8] + be_bytes(n, 2))
        } else if n <= 0xffff_ffff {
            Some(seq![0xc9u8] + be_bytes(n, 4))
        } else {
            None
        },
{
    if n <= 0xff {
        assert(be_bytes(n, 1) == be_bytes(n / 256, 0).push((n % 256) as u8));
        assert(seq![0xd9u8] + be_bytes(n, 1) =~= seq![0xd9u8, n as u8]);
        assert(seq![0xc4u8] + be_bytes(n, 1) =~= seq![0xc4u8, n as u8]);
        assert(seq![0xc7u8] + be_bytes(n, 1) =~= seq![0xc7u8, n as u8]);
    }
}

/// A byte from 0x00 to 0x7F on its own is the integer it stands for, and a
/// byte from 0xE0 to 0xFF is that byte minus 256; either is read as a
/// single-byte signed integer, consuming that one byte.
pub proof fn law_read_fixint(b: u8, rest: Seq<u8>)
    ensures
        b <= 0x7f ==> ({
            &&& read_spec(seq![b] + rest).result matches Ok(SpecValue::Int8(i))
            &&& i == b
            &&& read_spec(seq![b] + rest).used == 1
        }),
        b >= 0xe0 ==> ({
            &&& read_spec(seq![b] + rest).result matches Ok(SpecValue::Int8(i))
            &&& i == b - 256
            &&& read_spec(seq![b] + rest).used == 1
        }),
{
    reveal(head);
    let s = seq![b] + rest;
    assert(s[0] == b);
}

} // verus!
