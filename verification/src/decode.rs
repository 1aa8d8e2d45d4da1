//! Reading values in the MessagePack format.
//!
//! The input is a byte sequence that ends where the stream ends. As a stream
//! would, a read that runs past the end takes the bytes that are there: a
//! number is completed with zero bytes, a string or byte string is cut short.
//! Such a read is "starved"; its result is final only once no more bytes can
//! come.
use crate::bigendian::{
    be_to_nat, lemma_be_to_nat_bound, lemma_pow256_mono, lemma_pow256_values, padded, read_be, signed,
};
use crate::byte;
use crate::errors::ReadError;
use crate::value::{lemma_array_view, lemma_mapping_view, values_view, SpecValue, Value, ValueMap};
use vstd::prelude::*;
use vstd::utf8::{decode_utf8, valid_utf8};

verus! {

/// Why reading a value failed.
pub enum ReadFault {
    /// The input ended before a value began.
    NoData,
    /// A leading byte that announces no format; it stays unread.
    Unrecognized(u8),
    /// A string's bytes are not UTF-8.
    BadUtf8,
}

/// The outcome of reading from the front of a byte sequence: the result,
/// how many bytes were consumed, and whether a read ran past the end.
pub struct Step<T> {
    pub result: Result<T, ReadFault>,
    pub used: nat,
    pub starved: bool,
}

/// What the leading byte (and the length that follows it) announces.
pub enum Head {
    /// A value, or a failure, that needs no further value to be read.
    Done(Step<SpecValue>),
    /// An array of `count` values that start `at` bytes in.
    Array { count: nat, at: nat, starved: bool },
    /// A map of `count` entries that start `at` bytes in.
    Mapping { count: nat, at: nat, starved: bool },
}

/// How many of `n` wanted bytes `r` holds.
pub open spec fn avail(r: Seq<u8>, n: nat) -> nat {
    if n <= r.len() {
        n
    } else {
        r.len()
    }
}

/// Whether `r` holds fewer than `n` bytes.
pub open spec fn short(r: Seq<u8>, n: nat) -> bool {
    r.len() < n
}

/// The `n`-byte big-endian number at the front of `r`, zeros completing it.
pub open spec fn be_at(r: Seq<u8>, n: nat) -> nat {
    be_to_nat(padded(r, n))
}

/// The bytes of an `n`-byte payload at the front of `r`, as many as are there.
pub open spec fn payload(r: Seq<u8>, n: nat) -> Seq<u8> {
    r.take(avail(r, n) as int)
}

/// A fixed-width number whose `n` bytes follow the leading byte.
pub open spec fn scalar(v: SpecValue, r: Seq<u8>, n: nat) -> Head {
    Head::Done(Step { result: Ok(v), used: 1 + avail(r, n), starved: short(r, n) })
}

/// A string of `n` bytes at the front of `r`, which starts `off` bytes in.
pub open spec fn text(r: Seq<u8>, off: nat, starved: bool, n: nat) -> Head {
    let d = payload(r, n);
    Head::Done(
        Step {
            result: if valid_utf8(d) {
                Ok(SpecValue::Str(decode_utf8(d)))
            } else {
                Err(ReadFault::BadUtf8)
            },
            used: off + d.len(),
            starved: starved || short(r, n),
        },
    )
}

/// A byte string of `n` bytes at the front of `r`, which starts `off` bytes in.
pub open spec fn blob(r: Seq<u8>, off: nat, starved: bool, n: nat) -> Head {
    let d = payload(r, n);
    Head::Done(
        Step {
            result: Ok(SpecValue::Binary(d)),
            used: off + d.len(),
            starved: starved || short(r, n),
        },
    )
}

/// An extended value: its type byte at the front of `r`, then `n` data bytes.
pub open spec fn extension(r: Seq<u8>, off: nat, starved: bool, n: nat) -> Head {
    let k = avail(r, 1);
    let id = signed(be_at(r, 1), 1) as i8;
    let d = payload(r.skip(k as int), n);
    Head::Done(
        Step {
            result: Ok(SpecValue::Extended(id, d)),
            used: off + k + d.len(),
            starved: starved || short(r, 1) || short(r.skip(k as int), n),
        },
    )
}

/// What the front of a non-empty `s` announces.
#[verifier::opaque]
pub open spec fn head(s: Seq<u8>) -> Head
    recommends
        s.len() > 0,
{
    let b = s[0];
    let r = s.skip(1);
    let k1 = avail(r, 1);
    let k2 = avail(r, 2);
    let k4 = avail(r, 4);
    if b <= byte::FIXINT_POS_RANGE_END {
        Head::Done(Step { result: Ok(SpecValue::Int8(b as i8)), used: 1, starved: false })
    } else if b <= byte::FIXMAP_RANGE_END {
        Head::Mapping { count: (b - 0x80) as nat, at: 1, starved: false }
    } else if b <= byte::FIXARRAY_RANGE_END {
        Head::Array { count: (b - 0x90) as nat, at: 1, starved: false }
    } else if b <= byte::FIXSTR_RANGE_END {
        text(r, 1, false, (b - 0xa0) as nat)
    } else if b == byte::NIL {
        Head::Done(Step { result: Ok(SpecValue::Nil), used: 1, starved: false })
    } else if b == byte::FALSE {
        Head::Done(Step { result: Ok(SpecValue::Boolean(false)), used: 1, starved: false })
    } else if b == byte::TRUE {
        Head::Done(Step { result: Ok(SpecValue::Boolean(true)), used: 1, starved: false })
    } else if b == byte::U8 {
        scalar(SpecValue::Uint8(be_at(r, 1) as u8), r, 1)
    } else if b == byte::U16 {
        scalar(SpecValue::Uint16(be_at(r, 2) as u16), r, 2)
    } else if b == byte::U32 {
        scalar(SpecValue::Uint32(be_at(r, 4) as u32), r, 4)
    } else if b == byte::U64 {
        scalar(SpecValue::Uint64(be_at(r, 8) as u64), r, 8)
    } else if b == byte::I8 {
        scalar(SpecValue::Int8(signed(be_at(r, 1), 1) as i8), r, 1)
    } else if b == byte::I16 {
        scalar(SpecValue::Int16(signed(be_at(r, 2), 2) as i16), r, 2)
    } else if b == byte::I32 {
        scalar(SpecValue::Int32(signed(be_at(r, 4), 4) as i32), r, 4)
    } else if b == byte::I64 {
        scalar(SpecValue::Int64(signed(be_at(r, 8), 8) as i64), r, 8)
    } else if b == byte::F32 {
        scalar(SpecValue::Float32(be_at(r, 4) as u32), r, 4)
    } else if b == byte::F64 {
        scalar(SpecValue::Float64(be_at(r, 8) as u64), r, 8)
    } else if b == byte::STR8 {
        text(r.skip(k1 as int), 1 + k1, short(r, 1), be_at(r, 1))
    } else if b == byte::STR16 {
        text(r.skip(k2 as int), 1 + k2, short(r, 2), be_at(r, 2))
    } else if b == byte::STR32 {
        text(r.skip(k4 as int), 1 + k4, short(r, 4), be_at(r, 4))
    } else if b == byte::BIN8 {
        blob(r.skip(k1 as int), 1 + k1, short(r, 1), be_at(r, 1))
    } else if b == byte::BIN16 {
        blob(r.skip(k2 as int), 1 + k2, short(r, 2), be_at(r, 2))
    } else if b == byte::BIN32 {
        blob(r.skip(k4 as int), 1 + k4, short(r, 4), be_at(r, 4))
    } else if b == byte::AR16 {
        Head::Array { count: be_at(r, 2), at: 1 + k2, starved: short(r, 2) }
    } else if b == byte::AR32 {
        Head::Array { count: be_at(r, 4), at: 1 + k4, starved: short(r, 4) }
    } else if b == byte::MAP16 {
        Head::Mapping { count: be_at(r, 2), at: 1 + k2, starved: short(r, 2) }
    } else if b == byte::MAP32 {
        Head::Mapping { count: be_at(r, 4), at: 1 + k4, starved: short(r, 4) }
    } else if b == byte::FIXEXT1 {
        extension(r, 1, false, 1)
    } else if b == byte::FIXEXT2 {
        extension(r, 1, false, 2)
    } else if b == byte::FIXEXT4 {
        extension(r, 1, false, 4)
    } else if b == byte::FIXEXT8 {
        extension(r, 1, false, 8)
    } else if b == byte::FIXEXT16 {
        extension(r, 1, false, 16)
    } else if b == byte::EXT8 {
        extension(r.skip(k1 as int), 1 + k1, short(r, 1), be_at(r, 1))
    } else if b == byte::EXT16 {
        extension(r.skip(k2 as int), 1 + k2, short(r, 2), be_at(r, 2))
    } else if b == byte::EXT32 {
        extension(r.skip(k4 as int), 1 + k4, short(r, 4), be_at(r, 4))
    } else if b >= byte::FIXINT_NEG_RANGE_START {
        Head::Done(Step { result: Ok(SpecValue::Int8((b - 0x100) as i8)), used: 1, starved: false })
    } else {
        Head::Done(Step { result: Err(ReadFault::Unrecognized(b)), used: 0, starved: false })
    }
}

/// The entries of a map whose keys and values were read in turn.
pub open spec fn pairs(vs: Seq<SpecValue>) -> Seq<(SpecValue, SpecValue)> {
    Seq::new(vs.len() / 2, |i: int| (vs[2 * i], vs[2 * i + 1]))
}

/// Reading one value from the front of `s`.
pub open spec fn read_spec(s: Seq<u8>) -> Step<SpecValue>
    decreases s.len(), 0nat, 0nat,
{
    if s.len() == 0 {
        Step { result: Err(ReadFault::NoData), used: 0, starved: true }
    } else {
        match head(s) {
            Head::Done(st) => st,
            Head::Array { count, at, starved } => {
                if at == 0 || at > s.len() {
                    Step { result: Err(ReadFault::NoData), used: 0, starved: true }
                } else {
                    let q = read_seq(s.skip(at as int), count);
                    Step {
                        result: match q.result {
                            Ok(vs) => Ok(SpecValue::Array(vs)),
                            Err(f) => Err(f),
                        },
                        used: at + q.used,
                        starved: starved || q.starved,
                    }
                }
            },
            Head::Mapping { count, at, starved } => {
                if at == 0 || at > s.len() {
                    Step { result: Err(ReadFault::NoData), used: 0, starved: true }
                } else {
                    let q = read_seq(s.skip(at as int), 2 * count);
                    Step {
                        result: match q.result {
                            Ok(vs) => Ok(SpecValue::Mapping(pairs(vs))),
                            Err(f) => Err(f),
                        },
                        used: at + q.used,
                        starved: starved || q.starved,
                    }
                }
            },
        }
    }
}

/// Reading `n` values one after the other from the front of `s`; reading
/// stops at the first failure.
pub open spec fn read_seq(s: Seq<u8>, n: nat) -> Step<Seq<SpecValue>>
    decreases s.len(), 1nat, n,
{
    if n == 0 {
        Step { result: Ok(Seq::empty()), used: 0, starved: false }
    } else {
        let a = read_spec(s);
        match a.result {
            Err(f) => Step { result: Err(f), used: a.used, starved: a.starved },
            Ok(v) => {
                if a.used == 0 || a.used > s.len() {
                    Step { result: Err(ReadFault::NoData), used: 0, starved: true }
                } else {
                    let b = read_seq(s.skip(a.used as int), (n - 1) as nat);
                    Step {
                        result: match b.result {
                            Ok(vs) => Ok(seq![v] + vs),
                            Err(f) => Err(f),
                        },
                        used: a.used + b.used,
                        starved: a.starved || b.starved,
                    }
                }
            },
        }
    }
}

/// A value read from the front of `s` consumes at least one byte and never
/// more than `s` holds; an array's or map's elements start within `s`.
pub proof fn lemma_head_bounds(s: Seq<u8>)
    requires
        s.len() > 0,
    ensures
        match head(s) {
            Head::Done(st) => st.used <= s.len() && (st.result is Ok ==> st.used >= 1),
            Head::Array { count, at, starved } => 1 <= at <= s.len(),
            Head::Mapping { count, at, starved } => 1 <= at <= s.len(),
        },
{
    reveal(head);
}

pub proof fn lemma_read_bounds(s: Seq<u8>)
    ensures
        read_spec(s).used <= s.len(),
        read_spec(s).result is Ok ==> read_spec(s).used >= 1,
    decreases s.len(), 0nat, 0nat,
{
    if s.len() > 0 {
        lemma_head_bounds(s);
        match head(s) {
            Head::Done(st) => {},
            Head::Array { count, at, starved } => {
                lemma_read_seq_bounds(s.skip(at as int), count);
            },
            Head::Mapping { count, at, starved } => {
                lemma_read_seq_bounds(s.skip(at as int), 2 * count);
            },
        }
    }
}

pub proof fn lemma_read_seq_bounds(s: Seq<u8>, n: nat)
    ensures
        read_seq(s, n).used <= s.len(),
    decreases s.len(), 1nat, n,
{
    if n > 0 {
        lemma_read_bounds(s);
        let a = read_spec(s);
        if a.result is Ok && a.used >= 1 {
            lemma_read_seq_bounds(s.skip(a.used as int), (n - 1) as nat);
        }
    }
}

/* -- The reader, as executable code -- */

/// A result, the bytes it consumed, and whether a read ran past the end,
/// against their model.
pub open spec fn step_matches(r: (Result<Value, ReadFault>, usize, bool), st: Step<SpecValue>) -> bool {
    &&& r.1 == st.used
    &&& r.2 == st.starved
    &&& match r.0 {
        Ok(v) => st.result == Ok::<SpecValue, ReadFault>(v@),
        Err(f) => st.result == Err::<SpecValue, ReadFault>(f),
    }
}

/// What a leading byte announced, as the reader holds it.
enum Announced {
    Done((Result<Value, ReadFault>, usize, bool)),
    Array(u64, usize, bool),
    Mapping(u64, usize, bool),
}

spec fn announced_matches(a: Announced, h: Head) -> bool {
    match a {
        Announced::Done(r) => h matches Head::Done(st) && step_matches(r, st),
        Announced::Array(c, at, st) => h == Head::Array {
            count: c as nat,
            at: at as nat,
            starved: st,
        },
        Announced::Mapping(c, at, st) => h == Head::Mapping {
            count: c as nat,
            at: at as nat,
            starved: st,
        },
    }
}

/// `String::from_utf8`: by its documentation it succeeds exactly when the
/// bytes are valid UTF-8, and the string then holds the characters that the
/// bytes encode.
#[verifier::external_body]
fn string_from_utf8(bytes: Vec<u8>) -> (r: Option<String>)
    ensures
        r is Some <==> valid_utf8(bytes@),
        r matches Some(s) ==> s@ == decode_utf8(bytes@),
{
    String::from_utf8(bytes).ok()
}

/// How many of `n` wanted bytes from `p` on `input` holds.
fn avail_at(input: &[u8], p: usize, n: u64) -> (k: usize)
    requires
        p <= input@.len(),
    ensures
        k as nat == avail(input@.skip(p as int), n as nat),
{
    if n <= (input.len() - p) as u64 {
        n as usize
    } else {
        input.len() - p
    }
}

/// A copy of `input[from..from + k]`.
fn copy_out(input: &[u8], from: usize, k: usize) -> (r: Vec<u8>)
    requires
        from + k <= input@.len(),
    ensures
        r@ == input@.subrange(from as int, from + k),
{
    let mut r: Vec<u8> = Vec::new();
    let mut i: usize = 0;
    let len = input.len();
    while i < k
        invariant
            len == input@.len(),
            from + k <= input@.len(),
            0 <= i <= k,
            r@ == input@.subrange(from as int, from + i),
        decreases k - i,
    {
        r.push(input[from + i]);
        i = i + 1;
        assert(r@ =~= input@.subrange(from as int, from + i));
    }
    r
}

/// The string of `n` bytes at `p`, where the value began `off` bytes earlier.
fn text_at(input: &[u8], p: usize, off: usize, st: bool, n: u64) -> (r: (Result<Value, ReadFault>, usize, bool))
    requires
        p <= input@.len(),
        off <= p,
    ensures
        text(input@.skip(p as int), off as nat, st, n as nat) matches Head::Done(step)
            && step_matches(r, step),
{
    let ghost rs = input@.skip(p as int);
    let k = avail_at(input, p, n);
    let bytes = copy_out(input, p, k);
    assert(bytes@ =~= payload(rs, n as nat));
    let short = ((input.len() - p) as u64) < n;
    match string_from_utf8(bytes) {
        Some(s) => (Ok(Value::String(s)), off + k, st || short),
        None => (Err(ReadFault::BadUtf8), off + k, st || short),
    }
}

/// The byte string of `n` bytes at `p`, where the value began `off` bytes earlier.
fn blob_at(input: &[u8], p: usize, off: usize, st: bool, n: u64) -> (r: (Result<Value, ReadFault>, usize, bool))
    requires
        p <= input@.len(),
        off <= p,
    ensures
        blob(input@.skip(p as int), off as nat, st, n as nat) matches Head::Done(step)
            && step_matches(r, step),
{
    let ghost rs = input@.skip(p as int);
    let k = avail_at(input, p, n);
    let bytes = copy_out(input, p, k);
    assert(bytes@ =~= payload(rs, n as nat));
    let short = ((input.len() - p) as u64) < n;
    (Ok(Value::Binary(bytes)), off + k, st || short)
}

/// The signed byte that a one-byte pattern denotes.
fn to_i8(v: u64) -> (r: i8)
    requires
        v < 0x100,
    ensures
        r == signed(v as nat, 1) as i8,
{
    proof {
        lemma_pow256_values();
    }
    if v < 0x80 {
        v as i8
    } else {
        (v as i16 - 0x100) as i8
    }
}

/// The extended value whose type byte is at `p`, with `n` data bytes after it.
fn extension_at(input: &[u8], p: usize, off: usize, st: bool, n: u64) -> (r: (Result<Value, ReadFault>, usize, bool))
    requires
        p <= input@.len(),
        off <= p,
    ensures
        extension(input@.skip(p as int), off as nat, st, n as nat) matches Head::Done(step)
            && step_matches(r, step),
{
    let ghost rs = input@.skip(p as int);
    let len = input.len();
    let (t, k1) = read_be(input, p, 1);
    proof {
        lemma_be_to_nat_bound(padded(rs, 1));
        lemma_pow256_values();
        assert(input@.skip(p + k1) =~= rs.skip(k1 as int));
    }
    let id = to_i8(t);
    let q = p + k1;
    let k = avail_at(input, q, n);
    let data = copy_out(input, q, k);
    assert(data@ =~= payload(rs.skip(k1 as int), n as nat));
    let short = ((len - p) as u64) < 1 || ((len - q) as u64) < n;
    (Ok(Value::Extended(id, data)), off + k1 + k, st || short)
}

/// The fixed-width number that the marker `b` at `pos` announces.
fn number_at(input: &[u8], pos: usize, b: u8) -> (a: Announced)
    requires
        pos < input@.len(),
        input@[pos as int] == b,
        b == byte::U8 || b == byte::U16 || b == byte::U32 || b == byte::U64 || b == byte::I8
            || b == byte::I16 || b == byte::I32 || b == byte::I64 || b == byte::F32 || b
            == byte::F64,
    ensures
        announced_matches(a, head(input@.skip(pos as int))),
{
    reveal(head);
    let ghost s = input@.skip(pos as int);
    let ghost r = s.skip(1);
    assert(r =~= input@.skip(pos + 1));
    let len = input.len();
    let width: usize = if b == byte::U8 || b == byte::I8 {
        1
    } else if b == byte::U16 || b == byte::I16 {
        2
    } else if b == byte::U32 || b == byte::I32 || b == byte::F32 {
        4
    } else {
        8
    };
    let (v, k) = read_be(input, pos + 1, width);
    proof {
        lemma_be_to_nat_bound(padded(r, width as nat));
        lemma_pow256_values();
    }
    let value = if b == byte::U8 {
        Value::Uint8(v as u8)
    } else if b == byte::U16 {
        Value::Uint16(v as u16)
    } else if b == byte::U32 {
        Value::Uint32(v as u32)
    } else if b == byte::U64 {
        Value::Uint64(v)
    } else if b == byte::I8 {
        Value::Int8(to_i8(v))
    } else if b == byte::I16 {
        Value::Int16(
            if v < 0x8000 {
                v as i16
            } else {
                (v as i32 - 0x1_0000) as i16
            },
        )
    } else if b == byte::I32 {
        Value::Int32(
            if v < 0x8000_0000 {
                v as i32
            } else {
                (v as i64 - 0x1_0000_0000) as i32
            },
        )
    } else if b == byte::I64 {
        Value::Int64(
            if v < 0x8000_0000_0000_0000 {
                v as i64
            } else {
                (v as i128 - 0x1_0000_0000_0000_0000) as i64
            },
        )
    } else if b == byte::F32 {
        Value::Float32(v as u32)
    } else {
        Value::Float64(v)
    };
    let short = len - (pos + 1) < width;
    Announced::Done((Ok(value), 1 + k, short))
}

/// Markers whose length (or count) follows them.
spec fn length_prefixed(b: u8) -> bool {
    b == byte::STR8 || b == byte::STR16 || b == byte::STR32 || b == byte::BIN8 || b == byte::BIN16
        || b == byte::BIN32 || b == byte::AR16 || b == byte::AR32 || b == byte::MAP16 || b
        == byte::MAP32 || b == byte::EXT8 || b == byte::EXT16 || b == byte::EXT32
}

fn is_length_prefixed(b: u8) -> (r: bool)
    ensures
        r == length_prefixed(b),
{
    b == byte::STR8 || b == byte::STR16 || b == byte::STR32 || b == byte::BIN8 || b == byte::BIN16
        || b == byte::BIN32 || b == byte::AR16 || b == byte::AR32 || b == byte::MAP16 || b
        == byte::MAP32 || b == byte::EXT8 || b == byte::EXT16 || b == byte::EXT32
}

/// What a marker whose length follows it announces.
fn length_prefixed_at(input: &[u8], pos: usize, b: u8) -> (a: Announced)
    requires
        pos < input@.len(),
        input@[pos as int] == b,
        length_prefixed(b),
    ensures
        announced_matches(a, head(input@.skip(pos as int))),
        a matches Announced::Mapping(c, _, _) ==> c < 0x1_0000_0000,
{
    reveal(head);
    let ghost s = input@.skip(pos as int);
    let ghost r = s.skip(1);
    let len = input.len();
    assert(r =~= input@.skip(pos + 1));
    let p = pos + 1;
    let width: usize = if b == byte::STR8 || b == byte::BIN8 || b == byte::EXT8 {
        1
    } else if b == byte::STR16 || b == byte::BIN16 || b == byte::AR16 || b == byte::MAP16 || b
        == byte::EXT16 {
        2
    } else {
        4
    };
    let (n, k) = read_be(input, p, width);
    proof {
        lemma_be_to_nat_bound(padded(r, width as nat));
        lemma_pow256_values();
        lemma_pow256_mono(width as nat, 4);
    }
    let short = len - p < width;
    let q = p + k;
    proof {
        assert(r.skip(k as int) =~= input@.skip(q as int));
    }
    if b == byte::STR8 || b == byte::STR16 || b == byte::STR32 {
        Announced::Done(text_at(input, q, 1 + k, short, n))
    } else if b == byte::BIN8 || b == byte::BIN16 || b == byte::BIN32 {
        Announced::Done(blob_at(input, q, 1 + k, short, n))
    } else if b == byte::AR16 || b == byte::AR32 {
        Announced::Array(n, 1 + k, short)
    } else if b == byte::MAP16 || b == byte::MAP32 {
        Announced::Mapping(n, 1 + k, short)
    } else {
        Announced::Done(extension_at(input, q, 1 + k, short, n))
    }
}

/// What the leading byte at `pos` announces.
fn parse_head(input: &[u8], pos: usize) -> (a: Announced)
    requires
        pos < input@.len(),
    ensures
        announced_matches(a, head(input@.skip(pos as int))),
        a matches Announced::Mapping(c, _, _) ==> c < 0x1_0000_0000,
{
    reveal(head);
    let ghost s = input@.skip(pos as int);
    let ghost r = s.skip(1);
    let len = input.len();
    assert(r =~= input@.skip(pos + 1));
    let b = input[pos];
    assert(s[0] == b);
    let p = pos + 1;
    if b <= byte::FIXINT_POS_RANGE_END {
        Announced::Done((Ok(Value::Int8(b as i8)), 1, false))
    } else if b <= byte::FIXMAP_RANGE_END {
        Announced::Mapping((b - 0x80) as u64, 1, false)
    } else if b <= byte::FIXARRAY_RANGE_END {
        Announced::Array((b - 0x90) as u64, 1, false)
    } else if b <= byte::FIXSTR_RANGE_END {
        Announced::Done(text_at(input, p, 1, false, (b - 0xa0) as u64))
    } else if b == byte::NIL {
        Announced::Done((Ok(Value::Nil), 1, false))
    } else if b == byte::FALSE {
        Announced::Done((Ok(Value::Boolean(false)), 1, false))
    } else if b == byte::TRUE {
        Announced::Done((Ok(Value::Boolean(true)), 1, false))
    } else if b == byte::U8 || b == byte::U16 || b == byte::U32 || b == byte::U64 || b == byte::I8
        || b == byte::I16 || b == byte::I32 || b == byte::I64 || b == byte::F32 || b == byte::F64 {
        number_at(input, pos, b)
    } else if is_length_prefixed(b) {
        length_prefixed_at(input, pos, b)
    } else if b == byte::FIXEXT1 || b == byte::FIXEXT2 || b == byte::FIXEXT4 || b == byte::FIXEXT8
        || b == byte::FIXEXT16 {
        let n: u64 = if b == byte::FIXEXT1 {
            1
        } else if b == byte::FIXEXT2 {
            2
        } else if b == byte::FIXEXT4 {
            4
        } else if b == byte::FIXEXT8 {
            8
        } else {
            16
        };
        Announced::Done(extension_at(input, p, 1, false, n))
    } else if b >= byte::FIXINT_NEG_RANGE_START {
        Announced::Done((Ok(Value::Int8((b as i16 - 0x100) as i8)), 1, false))
    } else {
        Announced::Done((Err(ReadFault::Unrecognized(b)), 0, false))
    }
}

/// A sequence of results, the bytes consumed before them, and whether a read
/// ran past the end, followed by what reading the rest gives.
pub open spec fn chain(
    acc: Seq<SpecValue>,
    used: nat,
    starved: bool,
    rest: Step<Seq<SpecValue>>,
) -> Step<Seq<SpecValue>> {
    Step {
        result: match rest.result {
            Ok(vs) => Ok(acc + vs),
            Err(f) => Err(f),
        },
        used: used + rest.used,
        starved: starved || rest.starved,
    }
}

pub proof fn lemma_chain_assoc(
    acc: Seq<SpecValue>,
    used: nat,
    starved: bool,
    more: Seq<SpecValue>,
    used2: nat,
    starved2: bool,
    rest: Step<Seq<SpecValue>>,
)
    ensures
        chain(acc, used, starved, chain(more, used2, starved2, rest)) == chain(
            acc + more,
            used + used2,
            starved || starved2,
            rest,
        ),
{
    if let Ok(vs) = rest.result {
        assert(acc + (more + vs) =~= (acc + more) + vs);
    }
}

/// The unfolding of [`read_seq`] when at least one value is wanted.
pub proof fn lemma_read_seq_unfold(s: Seq<u8>, n: nat)
    requires
        n > 0,
    ensures
        ({
            let a = read_spec(s);
            match a.result {
                Err(f) => read_seq(s, n) == Step::<Seq<SpecValue>> {
                    result: Err(f),
                    used: a.used,
                    starved: a.starved,
                },
                Ok(v) => a.used >= 1 && a.used <= s.len() && read_seq(s, n) == chain(
                    seq![v],
                    a.used,
                    a.starved,
                    read_seq(s.skip(a.used as int), (n - 1) as nat),
                ),
            }
        }),
{
    lemma_read_bounds(s);
}

/// A map's entries laid out as the keys and values were read, in turn.
pub open spec fn flatten(es: Seq<(SpecValue, SpecValue)>) -> Seq<SpecValue> {
    Seq::new(2 * es.len(), |i: int| if i % 2 == 0 { es[i / 2].0 } else { es[i / 2].1 })
}

pub proof fn lemma_pairs_flatten(es: Seq<(SpecValue, SpecValue)>)
    ensures
        pairs(flatten(es)) =~= es,
{
    let f = flatten(es);
    assert forall|i: int| 0 <= i < es.len() implies pairs(f)[i] == es[i] by {
        assert((2 * i) % 2 == 0 && (2 * i) / 2 == i);
        assert((2 * i + 1) % 2 == 1 && (2 * i + 1) / 2 == i);
    }
}

pub proof fn lemma_flatten_push(es: Seq<(SpecValue, SpecValue)>, k: SpecValue, v: SpecValue)
    ensures
        flatten(es.push((k, v))) =~= flatten(es) + seq![k, v],
{
    let n = es.len();
    assert forall|i: int| 0 <= i < 2 * n implies #[trigger] flatten(es.push((k, v)))[i]
        == flatten(es)[i] by {
        assert(i / 2 < n);
    }
    assert((2 * n) / 2 == n && (2 * n) % 2 == 0);
    assert((2 * n + 1) / 2 == n && (2 * n + 1) % 2 == 1);
}

/// A sequence result against its model.
pub open spec fn seq_step_matches(
    r: (Result<Vec<Value>, ReadFault>, usize, bool),
    st: Step<Seq<SpecValue>>,
) -> bool {
    &&& r.1 == st.used
    &&& r.2 == st.starved
    &&& match r.0 {
        Ok(vs) => st.result == Ok::<Seq<SpecValue>, ReadFault>(values_view(vs@)),
        Err(f) => st.result == Err::<Seq<SpecValue>, ReadFault>(f),
    }
}

/// An entries result against the model of reading twice as many values.
pub open spec fn entries_step_matches(
    r: (Result<ValueMap, ReadFault>, usize, bool),
    st: Step<Seq<SpecValue>>,
) -> bool {
    &&& r.1 == st.used
    &&& r.2 == st.starved
    &&& match r.0 {
        Ok(m) => st.result == Ok::<Seq<SpecValue>, ReadFault>(flatten(m@)),
        Err(f) => st.result == Err::<Seq<SpecValue>, ReadFault>(f),
    }
}

/// Reads one value at `pos`.
fn read_at(input: &[u8], pos: usize) -> (r: (Result<Value, ReadFault>, usize, bool))
    requires
        pos <= input@.len(),
    ensures
        step_matches(r, read_spec(input@.skip(pos as int))),
        r.1 <= input@.len() - pos,
    decreases input@.len() - pos, 0int, 0int,
{
    let ghost s = input@.skip(pos as int);
    proof {
        lemma_read_bounds(s);
    }
    if pos >= input.len() {
        return (Err(ReadFault::NoData), 0, true);
    }
    proof {
        lemma_head_bounds(s);
    }
    match parse_head(input, pos) {
        Announced::Done(r) => r,
        Announced::Array(count, at, st) => {
            proof {
                assert(s.skip(at as int) =~= input@.skip(pos + at));
            }
            let (q, used, st2) = read_seq_at(input, pos + at, count);
            match q {
                Ok(vs) => {
                    proof {
                        lemma_array_view(vs);
                    }
                    (Ok(Value::Array(vs)), at + used, st || st2)
                },
                Err(f) => (Err(f), at + used, st || st2),
            }
        },
        Announced::Mapping(count, at, st) => {
            proof {
                assert(s.skip(at as int) =~= input@.skip(pos + at));
            }
            let (q, used, st2) = read_entries_at(input, pos + at, count);
            match q {
                Ok(m) => {
                    proof {
                        lemma_mapping_view(m);
                        lemma_pairs_flatten(m@);
                    }
                    (Ok(Value::Mapping(m)), at + used, st || st2)
                },
                Err(f) => (Err(f), at + used, st || st2),
            }
        },
    }
}

/// Reads `n` values one after the other, from `pos` on.
fn read_seq_at(input: &[u8], pos: usize, n: u64) -> (r: (Result<Vec<Value>, ReadFault>, usize, bool))
    requires
        pos <= input@.len(),
    ensures
        seq_step_matches(r, read_seq(input@.skip(pos as int), n as nat)),
        r.1 <= input@.len() - pos,
    decreases input@.len() - pos, 1int, n as int,
{
    let ghost s0 = input@.skip(pos as int);
    proof {
        lemma_read_seq_bounds(s0, n as nat);
    }
    let len = input.len();
    let mut out: Vec<Value> = Vec::new();
    let mut p = pos;
    let mut st = false;
    let mut i: u64 = 0;
    proof {
        assert(s0 =~= input@.skip(p as int));
        assert(values_view(out@) =~= Seq::<SpecValue>::empty());
        assert(chain(Seq::empty(), 0, false, read_seq(s0, n as nat)) =~= read_seq(s0, n as nat));
    }
    while i < n
        invariant
            len == input@.len(),
            pos <= p <= input@.len(),
            0 <= i <= n,
            s0 == input@.skip(pos as int),
            read_seq(s0, n as nat) == chain(
                values_view(out@),
                (p - pos) as nat,
                st,
                read_seq(input@.skip(p as int), (n - i) as nat),
            ),
        decreases n - i,
    {
        let ghost sp = input@.skip(p as int);
        proof {
            lemma_read_seq_unfold(sp, (n - i) as nat);
        }
        let (res, used, st1) = read_at(input, p);
        match res {
            Err(f) => {
                return (Err(f), p - pos + used, st || st1);
            },
            Ok(v) => {
                let ghost old_out = values_view(out@);
                out.push(v);
                proof {
                    assert(values_view(out@) =~= old_out + seq![v@]);
                    assert(sp.skip(used as int) =~= input@.skip(p + used));
                    lemma_chain_assoc(
                        old_out,
                        (p - pos) as nat,
                        st,
                        seq![v@],
                        used as nat,
                        st1,
                        read_seq(input@.skip(p + used), (n - i - 1) as nat),
                    );
                }
                p = p + used;
                st = st || st1;
                i = i + 1;
            },
        }
    }
    proof {
        assert(values_view(out@) + Seq::<SpecValue>::empty() =~= values_view(out@));
    }
    (Ok(out), p - pos, st)
}

/// Reads `n` map entries, each a key then its value, from `pos` on.
fn read_entries_at(input: &[u8], pos: usize, n: u64) -> (r: (Result<ValueMap, ReadFault>, usize, bool))
    requires
        pos <= input@.len(),
        n < 0x1_0000_0000,
    ensures
        entries_step_matches(r, read_seq(input@.skip(pos as int), 2 * n as nat)),
        r.1 <= input@.len() - pos,
    decreases input@.len() - pos, 1int, 2 * n as int,
{
    let ghost s0 = input@.skip(pos as int);
    proof {
        lemma_read_seq_bounds(s0, 2 * n as nat);
    }
    let len = input.len();
    let mut out: Vec<(Value, Value)> = Vec::new();
    let mut p = pos;
    let mut st = false;
    let mut i: u64 = 0;
    proof {
        assert(s0 =~= input@.skip(p as int));
        assert(flatten(ValueMap(out)@) =~= Seq::<SpecValue>::empty());
        assert(chain(Seq::empty(), 0, false, read_seq(s0, 2 * n as nat)) =~= read_seq(
            s0,
            2 * n as nat,
        ));
    }
    while i < n
        invariant
            len == input@.len(),
            n < 0x1_0000_0000,
            pos <= p <= input@.len(),
            0 <= i <= n,
            s0 == input@.skip(pos as int),
            read_seq(s0, 2 * n as nat) == chain(
                flatten(ValueMap(out)@),
                (p - pos) as nat,
                st,
                read_seq(input@.skip(p as int), (2 * n - 2 * i) as nat),
            ),
        decreases n - i,
    {
        let ghost sp = input@.skip(p as int);
        proof {
            lemma_read_seq_unfold(sp, (2 * n - 2 * i) as nat);
        }
        let (rk, uk, stk) = read_at(input, p);
        let k = match rk {
            Err(f) => {
                return (Err(f), p - pos + uk, st || stk);
            },
            Ok(k) => k,
        };
        let q = p + uk;
        let ghost sq = input@.skip(q as int);
        proof {
            assert(sp.skip(uk as int) =~= sq);
            lemma_read_seq_unfold(sq, (2 * n - 2 * i - 1) as nat);
        }
        let (rv, uv, stv) = read_at(input, q);
        let v = match rv {
            Err(f) => {
                return (Err(f), q - pos + uv, st || stk || stv);
            },
            Ok(v) => v,
        };
        let ghost old_map = ValueMap(out)@;
        let ghost old_flat = flatten(old_map);
        let ghost kv = k@;
        let ghost vv = v@;
        out.push((k, v));
        proof {
            assert(ValueMap(out)@ =~= old_map.push((kv, vv)));
            lemma_flatten_push(old_map, kv, vv);
            let rest = read_seq(input@.skip(q + uv), (2 * n - 2 * i - 2) as nat);
            lemma_chain_assoc(seq![kv], uk as nat, stk, seq![vv], uv as nat, stv, rest);
            lemma_chain_assoc(
                old_flat,
                (p - pos) as nat,
                st,
                seq![kv] + seq![vv],
                (uk + uv) as nat,
                stk || stv,
                rest,
            );
            assert(seq![kv] + seq![vv] =~= seq![kv, vv]);
            assert(sq.skip(uv as int) =~= input@.skip(q + uv));
        }
        p = q + uv;
        st = st || stk || stv;
        i = i + 1;
    }
    proof {
        assert(flatten(ValueMap(out)@) + Seq::<SpecValue>::empty() =~= flatten(ValueMap(out)@));
    }
    (Ok(ValueMap(out)), p - pos, st)
}

/* -- The public interface of reading -- */

/// What reading one value from the front of a byte buffer gives: the value or
/// the error (`None` where a string's bytes are not UTF-8), how many bytes it
/// consumed, and whether a read ran past the end of the buffer (so that more
/// bytes could have changed the result).
pub struct Decoded {
    pub value: Option<Result<Value, ReadError>>,
    pub used: usize,
    pub starved: bool,
}

/// Whether reading the front of `s` meets a string that is not UTF-8, where
/// no value can be given.
pub open spec fn meets_bad_utf8(s: Seq<u8>) -> bool {
    read_spec(s).result == Err::<SpecValue, ReadFault>(ReadFault::BadUtf8)
}

/// A read error against the fault it stands for.
pub open spec fn error_matches(e: ReadError, f: ReadFault) -> bool {
    match e {
        ReadError::NoData => f == ReadFault::NoData,
        ReadError::Unrecognized(b) => f == ReadFault::Unrecognized(b),
        _ => false,
    }
}

pub open spec fn result_matches(r: Result<Value, ReadError>, st: Step<SpecValue>) -> bool {
    match r {
        Ok(v) => st.result == Ok::<SpecValue, ReadFault>(v@),
        Err(e) => st.result matches Err(f) && error_matches(e, f),
    }
}

fn to_read_error(f: ReadFault) -> (e: ReadError)
    requires
        f != ReadFault::BadUtf8,
    ensures
        error_matches(e, f),
{
    match f {
        ReadFault::NoData => ReadError::NoData,
        ReadFault::Unrecognized(b) => ReadError::Unrecognized(b),
        ReadFault::BadUtf8 => ReadError::NotExtended,
    }
}

/// Reads one value from the front of `input`, which ends where the stream
/// ends. The value is `None` exactly where a string's bytes are not UTF-8;
/// where that read was also starved, more input may yet make them UTF-8.
pub fn decode(input: &[u8]) -> (d: Decoded)
    ensures
        d.used == read_spec(input@).used,
        d.starved == read_spec(input@).starved,
        d.value is None <==> meets_bad_utf8(input@),
        d.value matches Some(r) ==> result_matches(r, read_spec(input@)),
{
    let (res, used, starved) = read_at(input, 0);
    proof {
        assert(input@.skip(0) =~= input@);
    }
    let value = match res {
        Ok(v) => Some(Ok(v)),
        Err(ReadFault::BadUtf8) => None,
        Err(f) => Some(Err(to_read_error(f))),
    };
    Decoded { value, used, starved }
}

/// Reads values one after another from a buffer that holds what a stream
/// delivered, up to its end. A leading byte that announces no format is
/// left unread, so that reading again meets it again.
pub struct Reader {
    input: Vec<u8>,
    pos: usize,
}

impl Reader {
    #[verifier::type_invariant]
    spec fn inv(self) -> bool {
        self.pos <= self.input@.len()
    }

    /// The bytes not read yet.
    pub closed spec fn remaining(self) -> Seq<u8> {
        self.input@.skip(self.pos as int)
    }

    pub fn new(input: Vec<u8>) -> (r: Reader)
        ensures
            r.remaining() == input@,
    {
        let r = Reader { input, pos: 0 };
        assert(r.remaining() =~= input@);
        r
    }

    /// Reads the next value. A string that is not UTF-8 is outside what a
    /// reader accepts.
    pub fn read_value(&mut self) -> (r: Result<Value, ReadError>)
        requires
            !meets_bad_utf8(old(self).remaining()),
        ensures
            result_matches(r, read_spec(old(self).remaining())),
            final(self).remaining() == old(self).remaining().skip(
                read_spec(old(self).remaining()).used as int,
            ),
    {
        match self.try_read_value() {
            Some(r) => r,
            None => {
                proof {
                    assert(false);
                }
                Err(ReadError::NoData)
            },
        }
    }

    /// Reads the next value, or gives `None` and reads nothing where that
    /// value holds a string whose bytes are not UTF-8.
    pub fn try_read_value(&mut self) -> (r: Option<Result<Value, ReadError>>)
        ensures
            r is None <==> meets_bad_utf8(old(self).remaining()),
            r is None ==> final(self).remaining() == old(self).remaining(),
            r matches Some(x) ==> result_matches(x, read_spec(old(self).remaining())),
            r is Some ==> final(self).remaining() == old(self).remaining().skip(
                read_spec(old(self).remaining()).used as int,
            ),
    {
        proof {
            use_type_invariant(&*self);
        }
        let (res, used, _) = read_at(self.input.as_slice(), self.pos);
        let v = match res {
            Ok(v) => Ok(v),
            Err(ReadFault::BadUtf8) => {
                return None;
            },
            Err(f) => Err(to_read_error(f)),
        };
        let ghost before = self.remaining();
        assert(self.pos + used <= self.input.len());
        self.pos = self.pos + used;
        proof {
            assert(self.remaining() =~= before.skip(used as int));
        }
        Some(v)
    }
}

} // verus!
