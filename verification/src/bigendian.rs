//! Big-endian integers of a fixed width, as MessagePack lays them out.
use vstd::prelude::*;

verus! {

/// 256 to the power `n`.
pub open spec fn pow256(n: nat) -> nat
    decreases n,
{
    if n == 0 {
        1
    } else {
        256 * pow256((n - 1) as nat)
    }
}

/// The number that the bytes `s` denote, most significant byte first.
pub open spec fn be_to_nat(s: Seq<u8>) -> nat
    decreases s.len(),
{
    if s.len() == 0 {
        0
    } else {
        be_to_nat(s.drop_last()) * 256 + s.last() as nat
    }
}

/// The low `n` bytes of `x`, most significant first.
pub open spec fn be_bytes(x: nat, n: nat) -> Seq<u8>
    decreases n,
{
    if n == 0 {
        Seq::empty()
    } else {
        be_bytes(x / 256, (n - 1) as nat).push((x % 256) as u8)
    }
}

/// The first `n` bytes of `s`, with zero bytes in place of those that `s`
/// lacks.
pub open spec fn padded(s: Seq<u8>, n: nat) -> Seq<u8> {
    Seq::new(n, |i: int| if i < s.len() { s[i] } else { 0u8 })
}

/// The two's-complement pattern of `x` in `n` bytes, as a number.
pub open spec fn twos(x: int, n: nat) -> nat {
    if x < 0 {
        (x + pow256(n)) as nat
    } else {
        x as nat
    }
}

/// The signed number that an `n`-byte two's-complement pattern `u` denotes.
pub open spec fn signed(u: nat, n: nat) -> int {
    if 2 * u < pow256(n) {
        u as int
    } else {
        u - pow256(n)
    }
}

pub proof fn lemma_pow256_values()
    ensures
        pow256(0) == 1,
        pow256(1) == 0x100,
        pow256(2) == 0x1_0000,
        pow256(4) == 0x1_0000_0000,
        pow256(8) == 0x1_0000_0000_0000_0000,
{
    reveal_with_fuel(pow256, 9);
}

pub proof fn lemma_pow256_mono(m: nat, n: nat)
    requires
        m <= n,
    ensures
        pow256(m) <= pow256(n),
        pow256(m) >= 1,
    decreases n,
{
    if m < n {
        lemma_pow256_mono(m, (n - 1) as nat);
    } else if n > 0 {
        lemma_pow256_mono((n - 1) as nat, (n - 1) as nat);
    }
}

pub proof fn lemma_be_bytes_len(x: nat, n: nat)
    ensures
        be_bytes(x, n).len() == n,
    decreases n,
{
    if n > 0 {
        lemma_be_bytes_len(x / 256, (n - 1) as nat);
    }
}

pub proof fn lemma_be_to_nat_bound(s: Seq<u8>)
    ensures
        be_to_nat(s) < pow256(s.len()),
    decreases s.len(),
{
    if s.len() > 0 {
        lemma_be_to_nat_bound(s.drop_last());
    }
}

/// Reading back the bytes of a number that fits gives the number.
pub proof fn lemma_be_roundtrip(x: nat, n: nat)
    requires
        x < pow256(n),
    ensures
        be_to_nat(be_bytes(x, n)) == x,
        be_bytes(x, n).len() == n,
    decreases n,
{
    lemma_be_bytes_len(x, n);
    if n > 0 {
        lemma_be_roundtrip(x / 256, (n - 1) as nat);
        assert(be_bytes(x, n).drop_last() =~= be_bytes(x / 256, (n - 1) as nat));
    }
}

/// Two's complement of an integer in range, read back as signed, gives it back.
pub proof fn lemma_twos_signed(x: int, n: nat)
    requires
        n > 0,
        -pow256(n) <= 2 * x < pow256(n),
    ensures
        twos(x, n) < pow256(n),
        signed(twos(x, n), n) == x,
{
}

pub proof fn lemma_padded_full(s: Seq<u8>, n: nat)
    requires
        n <= s.len(),
    ensures
        padded(s, n) =~= s.take(n as int),
{
}

/// Appends the low `n` bytes of `x` to `out`, most significant first.
pub fn push_be(out: &mut Vec<u8>, x: u64, n: usize)
    requires
        n <= 8,
    ensures
        final(out)@ == old(out)@ + be_bytes(x as nat, n as nat),
    decreases n,
{
    if n > 0 {
        push_be(out, x / 256, n - 1);
        out.push((x % 256) as u8);
        assert(final(out)@ =~= old(out)@ + be_bytes(x as nat, n as nat));
    } else {
        assert(final(out)@ =~= old(out)@ + be_bytes(x as nat, n as nat));
    }
}

/// Reads an `n`-byte big-endian number at `pos`; bytes past the end of
/// `input` count as zero. Returns the number and how many bytes were there.
pub fn read_be(input: &[u8], pos: usize, n: usize) -> (r: (u64, usize))
    requires
        n <= 8,
        pos <= input@.len(),
    ensures
        r.0 as nat == be_to_nat(padded(input@.skip(pos as int), n as nat)),
        r.1 as int == if n <= input@.len() - pos {
            n as int
        } else {
            input@.len() - pos
        },
{
    let ghost s = input@.skip(pos as int);
    let ghost p = padded(s, n as nat);
    let mut val: u64 = 0;
    let mut i: usize = 0;
    let mut taken: usize = 0;
    proof {
        lemma_pow256_values();
        assert(p.take(0) =~= Seq::<u8>::empty());
    }
    while i < n
        invariant
            n <= 8,
            pos <= input@.len(),
            s == input@.skip(pos as int),
            p == padded(s, n as nat),
            0 <= i <= n,
            val as nat == be_to_nat(p.take(i as int)),
            taken as int == if i <= s.len() {
                i as int
            } else {
                s.len() as int
            },
            pow256(8) == 0x1_0000_0000_0000_0000,
        decreases n - i,
    {
        let b: u8 = if i < input.len() - pos {
            input[pos + i]
        } else {
            0
        };
        proof {
            lemma_be_to_nat_bound(p.take(i as int));
            lemma_pow256_mono(i as nat, 7);
            assert(p.take(i + 1).drop_last() =~= p.take(i as int));
            assert(b == p[i as int]);
        }
        val = val * 256 + b as u64;
        if i < input.len() - pos {
            taken = taken + 1;
        }
        i = i + 1;
    }
    assert(p.take(n as int) =~= p);
    (val, taken)
}

} // verus!
