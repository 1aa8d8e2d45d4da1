//! Writing values in the MessagePack format.
use crate::bigendian::{be_bytes, lemma_pow256_values, push_be, twos};
use crate::byte;
use crate::errors::WriteError;
use crate::value::{lemma_array_view, lemma_mapping_view, values_view, IntoValue, SpecValue, Value};
use vstd::prelude::*;
use vstd::string::*;
use vstd::utf8::encode_utf8;

verus! {

/// What writing a value emits: the bytes written, and, where writing stopped
/// on a length that the format cannot hold, that length.
pub struct Emitted {
    pub bytes: Seq<u8>,
    pub too_much: Option<nat>,
}

pub open spec fn complete(bytes: Seq<u8>) -> Emitted {
    Emitted { bytes, too_much: None }
}

/// A length prefix, then what follows it; or nothing, where the length has
/// no prefix.
pub open spec fn prefixed(header: Option<Seq<u8>>, n: nat, body: Emitted) -> Emitted {
    match header {
        Some(h) => Emitted { bytes: h + body.bytes, too_much: body.too_much },
        None => Emitted { bytes: Seq::empty(), too_much: Some(n) },
    }
}

/// The prefix of a string of `n` bytes.
pub open spec fn str_header(n: nat) -> Option<Seq<u8>> {
    if n <= 31 {
        Some(seq![(0xa0 + n) as u8])
    } else if n <= 0xff {
        Some(seq![byte::STR8, n as u8])
    } else if n <= 0xffff {
        Some(seq![byte::STR16] + be_bytes(n, 2))
    } else if n <= 0xffff_ffff {
        Some(seq![byte::STR32] + be_bytes(n, 4))
    } else {
        None
    }
}

/// The prefix of a byte string of `n` bytes.
pub open spec fn bin_header(n: nat) -> Option<Seq<u8>> {
    if n <= 0xff {
        Some(seq![byte::BIN8, n as u8])
    } else if n <= 0xffff {
        Some(seq![byte::BIN16] + be_bytes(n, 2))
    } else if n <= 0xffff_ffff {
        Some(seq![byte::BIN32] + be_bytes(n, 4))
    } else {
        None
    }
}

/// The prefix of an array of `n` values.
pub open spec fn array_header(n: nat) -> Option<Seq<u8>> {
    if n <= 15 {
        Some(seq![(0x90 + n) as u8])
    } else if n <= 0xffff {
        Some(seq![byte::AR16] + be_bytes(n, 2))
    } else if n <= 0xffff_ffff {
        Some(seq![byte::AR32] + be_bytes(n, 4))
    } else {
        None
    }
}

/// The prefix of a map of `n` entries.
pub open spec fn map_header(n: nat) -> Option<Seq<u8>> {
    if n <= 15 {
        Some(seq![(0x80 + n) as u8])
    } else if n <= 0xffff {
        Some(seq![byte::MAP16] + be_bytes(n, 2))
    } else if n <= 0xffff_ffff {
        Some(seq![byte::MAP32] + be_bytes(n, 4))
    } else {
        None
    }
}

/// The prefix of an extended value of `n` data bytes.
pub open spec fn ext_header(n: nat) -> Option<Seq<u8>> {
    if n == 1 {
        Some(seq![byte::FIXEXT1])
    } else if n == 2 {
        Some(seq![byte::FIXEXT2])
    } else if n == 4 {
        Some(seq![byte::FIXEXT4])
    } else if n == 8 {
        Some(seq![byte::FIXEXT8])
    } else if n == 16 {
        Some(seq![byte::FIXEXT16])
    } else if n <= 0xff {
        Some(seq![byte::EXT8, n as u8])
    } else if n <= 0xffff {
        Some(seq![byte::EXT16] + be_bytes(n, 2))
    } else if n <= 0xffff_ffff {
        Some(seq![byte::EXT32] + be_bytes(n, 4))
    } else {
        None
    }
}

/// What writing `v` emits.
pub open spec fn write_spec(v: SpecValue) -> Emitted
    decreases v,
{
    match v {
        SpecValue::Nil => complete(seq![byte::NIL]),
        SpecValue::Boolean(b) => complete(
            seq![
                if b {
                    byte::TRUE
                } else {
                    byte::FALSE
                },
            ],
        ),
        SpecValue::Uint8(x) => complete(seq![byte::U8, x]),
        SpecValue::Uint16(x) => complete(seq![byte::U16] + be_bytes(x as nat, 2)),
        SpecValue::Uint32(x) => complete(seq![byte::U32] + be_bytes(x as nat, 4)),
        SpecValue::Uint64(x) => complete(seq![byte::U64] + be_bytes(x as nat, 8)),
        SpecValue::Int8(x) => complete(seq![byte::I8, twos(x as int, 1) as u8]),
        SpecValue::Int16(x) => complete(seq![byte::I16] + be_bytes(twos(x as int, 2), 2)),
        SpecValue::Int32(x) => complete(seq![byte::I32] + be_bytes(twos(x as int, 4), 4)),
        SpecValue::Int64(x) => complete(seq![byte::I64] + be_bytes(twos(x as int, 8), 8)),
        SpecValue::Float32(x) => complete(seq![byte::F32] + be_bytes(x as nat, 4)),
        SpecValue::Float64(x) => complete(seq![byte::F64] + be_bytes(x as nat, 8)),
        SpecValue::Str(cs) => prefixed(
            str_header(encode_utf8(cs).len()),
            encode_utf8(cs).len(),
            complete(encode_utf8(cs)),
        ),
        SpecValue::Binary(b) => prefixed(bin_header(b.len()), b.len(), complete(b)),
        SpecValue::Array(vs) => prefixed(array_header(vs.len()), vs.len(), write_all(vs)),
        SpecValue::Mapping(es) => prefixed(map_header(es.len()), es.len(), write_entries(es)),
        SpecValue::Extended(id, d) => prefixed(
            ext_header(d.len()),
            d.len(),
            complete(seq![twos(id as int, 1) as u8] + d),
        ),
    }
}

/// What writing the values `vs` one after the other emits; writing stops at
/// the first value that cannot be written.
pub open spec fn write_all(vs: Seq<SpecValue>) -> Emitted
    decreases vs,
{
    if vs.len() == 0 {
        complete(Seq::empty())
    } else {
        let first = write_spec(vs[0]);
        if first.too_much is Some {
            first
        } else {
            let rest = write_all(vs.subrange(1, vs.len() as int));
            Emitted { bytes: first.bytes + rest.bytes, too_much: rest.too_much }
        }
    }
}

/// What writing map entries emits: each key, then its value.
pub open spec fn write_entries(es: Seq<(SpecValue, SpecValue)>) -> Emitted
    decreases es,
{
    if es.len() == 0 {
        complete(Seq::empty())
    } else {
        let k = write_spec(es[0].0);
        if k.too_much is Some {
            k
        } else {
            let v = write_spec(es[0].1);
            if v.too_much is Some {
                Emitted { bytes: k.bytes + v.bytes, too_much: v.too_much }
            } else {
                let rest = write_entries(es.subrange(1, es.len() as int));
                Emitted { bytes: k.bytes + v.bytes + rest.bytes, too_much: rest.too_much }
            }
        }
    }
}

/// The unfolding of [`write_all`] at a non-empty sequence.
pub proof fn lemma_write_all_unfold(vs: Seq<SpecValue>)
    requires
        vs.len() > 0,
    ensures
        write_all(vs) == (if write_spec(vs[0]).too_much is Some {
            write_spec(vs[0])
        } else {
            Emitted {
                bytes: write_spec(vs[0]).bytes + write_all(vs.subrange(1, vs.len() as int)).bytes,
                too_much: write_all(vs.subrange(1, vs.len() as int)).too_much,
            }
        }),
{
}

/// The unfolding of [`write_entries`] at a non-empty sequence.
pub proof fn lemma_write_entries_unfold(es: Seq<(SpecValue, SpecValue)>)
    requires
        es.len() > 0,
    ensures
        write_entries(es) == (if write_spec(es[0].0).too_much is Some {
            write_spec(es[0].0)
        } else if write_spec(es[0].1).too_much is Some {
            Emitted {
                bytes: write_spec(es[0].0).bytes + write_spec(es[0].1).bytes,
                too_much: write_spec(es[0].1).too_much,
            }
        } else {
            Emitted {
                bytes: write_spec(es[0].0).bytes + write_spec(es[0].1).bytes + write_entries(
                    es.subrange(1, es.len() as int),
                ).bytes,
                too_much: write_entries(es.subrange(1, es.len() as int)).too_much,
            }
        }),
{
}

/// The error that a write result stands for.
pub open spec fn write_outcome(r: Result<(), WriteError>, e: Emitted) -> bool {
    match e.too_much {
        None => r is Ok,
        Some(n) => r matches Err(WriteError::TooMuchData(m)) && m == n,
    }
}

fn push_all(dest: &mut Vec<u8>, src: &[u8])
    ensures
        final(dest)@ == old(dest)@ + src@,
{
    let mut i: usize = 0;
    while i < src.len()
        invariant
            0 <= i <= src@.len(),
            dest@ == old(dest)@ + src@.take(i as int),
        decreases src@.len() - i,
    {
        dest.push(src[i]);
        i = i + 1;
        assert(dest@ =~= old(dest)@ + src@.take(i as int));
    }
    assert(src@.take(src@.len() as int) =~= src@);
}

fn push_str_header(dest: &mut Vec<u8>, n: usize) -> (ok: bool)
    ensures
        ok == str_header(n as nat) is Some,
        ok ==> final(dest)@ == old(dest)@ + str_header(n as nat).unwrap(),
        !ok ==> final(dest)@ == old(dest)@,
{
    if n <= 31 {
        dest.push(0xa0u8 + n as u8);
    } else if n <= 0xff {
        dest.push(byte::STR8);
        dest.push(n as u8);
    } else if n <= 0xffff {
        dest.push(byte::STR16);
        push_be(dest, n as u64, 2);
    } else if n as u64 <= 0xffff_ffffu64 {
        dest.push(byte::STR32);
        push_be(dest, n as u64, 4);
    } else {
        return false;
    }
    assert(final(dest)@ =~= old(dest)@ + str_header(n as nat).unwrap());
    true
}

fn push_bin_header(dest: &mut Vec<u8>, n: usize) -> (ok: bool)
    ensures
        ok == bin_header(n as nat) is Some,
        ok ==> final(dest)@ == old(dest)@ + bin_header(n as nat).unwrap(),
        !ok ==> final(dest)@ == old(dest)@,
{
    if n <= 0xff {
        dest.push(byte::BIN8);
        dest.push(n as u8);
    } else if n <= 0xffff {
        dest.push(byte::BIN16);
        push_be(dest, n as u64, 2);
    } else if n as u64 <= 0xffff_ffffu64 {
        dest.push(byte::BIN32);
        push_be(dest, n as u64, 4);
    } else {
        return false;
    }
    assert(final(dest)@ =~= old(dest)@ + bin_header(n as nat).unwrap());
    true
}

fn push_array_header(dest: &mut Vec<u8>, n: usize) -> (ok: bool)
    ensures
        ok == array_header(n as nat) is Some,
        ok ==> final(dest)@ == old(dest)@ + array_header(n as nat).unwrap(),
        !ok ==> final(dest)@ == old(dest)@,
{
    if n <= 15 {
        dest.push(0x90u8 + n as u8);
    } else if n <= 0xffff {
        dest.push(byte::AR16);
        push_be(dest, n as u64, 2);
    } else if n as u64 <= 0xffff_ffffu64 {
        dest.push(byte::AR32);
        push_be(dest, n as u64, 4);
    } else {
        return false;
    }
    assert(final(dest)@ =~= old(dest)@ + array_header(n as nat).unwrap());
    true
}

fn push_map_header(dest: &mut Vec<u8>, n: usize) -> (ok: bool)
    ensures
        ok == map_header(n as nat) is Some,
        ok ==> final(dest)@ == old(dest)@ + map_header(n as nat).unwrap(),
        !ok ==> final(dest)@ == old(dest)@,
{
    if n <= 15 {
        dest.push(0x80u8 + n as u8);
    } else if n <= 0xffff {
        dest.push(byte::MAP16);
        push_be(dest, n as u64, 2);
    } else if n as u64 <= 0xffff_ffffu64 {
        dest.push(byte::MAP32);
        push_be(dest, n as u64, 4);
    } else {
        return false;
    }
    assert(final(dest)@ =~= old(dest)@ + map_header(n as nat).unwrap());
    true
}

fn push_ext_header(dest: &mut Vec<u8>, n: usize) -> (ok: bool)
    ensures
        ok == ext_header(n as nat) is Some,
        ok ==> final(dest)@ == old(dest)@ + ext_header(n as nat).unwrap(),
        !ok ==> final(dest)@ == old(dest)@,
{
    if n == 1 {
        dest.push(byte::FIXEXT1);
    } else if n == 2 {
        dest.push(byte::FIXEXT2);
    } else if n == 4 {
        dest.push(byte::FIXEXT4);
    } else if n == 8 {
        dest.push(byte::FIXEXT8);
    } else if n == 16 {
        dest.push(byte::FIXEXT16);
    } else if n <= 0xff {
        dest.push(byte::EXT8);
        dest.push(n as u8);
    } else if n <= 0xffff {
        dest.push(byte::EXT16);
        push_be(dest, n as u64, 2);
    } else if n as u64 <= 0xffff_ffffu64 {
        dest.push(byte::EXT32);
        push_be(dest, n as u64, 4);
    } else {
        return false;
    }
    assert(final(dest)@ =~= old(dest)@ + ext_header(n as nat).unwrap());
    true
}

/// The byte of a signed 8-bit integer.
fn i8_byte(x: i8) -> (b: u8)
    ensures
        b == twos(x as int, 1) as u8,
{
    proof {
        lemma_pow256_values();
    }
    if x < 0 {
        (x as i16 + 256) as u8
    } else {
        x as u8
    }
}

/// Appends the encoding of `val` to `dest`, stopping at the first length
/// that the format cannot hold.
fn write_ref(dest: &mut Vec<u8>, val: &Value) -> (r: Result<(), WriteError>)
    ensures
        final(dest)@ == old(dest)@ + write_spec(val@).bytes,
        write_outcome(r, write_spec(val@)),
    decreases val,
{
    proof {
        lemma_pow256_values();
    }
    match val {
        Value::Nil => {
            dest.push(byte::NIL);
        },
        Value::Boolean(b) => {
            dest.push(
                if *b {
                    byte::TRUE
                } else {
                    byte::FALSE
                },
            );
        },
        Value::Uint8(x) => {
            dest.push(byte::U8);
            dest.push(*x);
        },
        Value::Uint16(x) => {
            dest.push(byte::U16);
            push_be(dest, *x as u64, 2);
        },
        Value::Uint32(x) => {
            dest.push(byte::U32);
            push_be(dest, *x as u64, 4);
        },
        Value::Uint64(x) => {
            dest.push(byte::U64);
            push_be(dest, *x, 8);
        },
        Value::Int8(x) => {
            dest.push(byte::I8);
            dest.push(i8_byte(*x));
        },
        Value::Int16(x) => {
            dest.push(byte::I16);
            let u: u64 = if *x < 0 {
                (*x as i32 + 0x1_0000) as u64
            } else {
                *x as u64
            };
            push_be(dest, u, 2);
        },
        Value::Int32(x) => {
            dest.push(byte::I32);
            let u: u64 = if *x < 0 {
                (*x as i64 + 0x1_0000_0000) as u64
            } else {
                *x as u64
            };
            push_be(dest, u, 4);
        },
        Value::Int64(x) => {
            dest.push(byte::I64);
            let u: u64 = if *x < 0 {
                (*x as i128 + 0x1_0000_0000_0000_0000) as u64
            } else {
                *x as u64
            };
            push_be(dest, u, 8);
        },
        Value::Float32(x) => {
            dest.push(byte::F32);
            push_be(dest, *x as u64, 4);
        },
        Value::Float64(x) => {
            dest.push(byte::F64);
            push_be(dest, *x, 8);
        },
        Value::String(s) => {
            let bytes = s.as_str().as_bytes();
            if !push_str_header(dest, bytes.len()) {
                return Err(WriteError::TooMuchData(bytes.len()));
            }
            push_all(dest, bytes);
        },
        Value::Binary(b) => {
            if !push_bin_header(dest, b.len()) {
                return Err(WriteError::TooMuchData(b.len()));
            }
            push_all(dest, b.as_slice());
        },
        Value::Extended(id, data) => {
            if !push_ext_header(dest, data.len()) {
                return Err(WriteError::TooMuchData(data.len()));
            }
            dest.push(i8_byte(*id));
            push_all(dest, data.as_slice());
        },
        Value::Array(values) => {
            proof {
                lemma_array_view(*values);
            }
            let ghost vv = values_view(values@);
            if !push_array_header(dest, values.len()) {
                return Err(WriteError::TooMuchData(values.len()));
            }
            let ghost start = dest@;
            let ghost mut done: Seq<u8> = Seq::empty();
            let mut i: usize = 0;
            proof {
                assert(vv.skip(0) =~= vv);
                assert(write_spec(val@) == prefixed(
                    array_header(vv.len()),
                    vv.len(),
                    write_all(vv),
                ));
            }
            while i < values.len()
                invariant
                    *val == Value::Array(*values),
                    vv == values_view(values@),
                    start == old(dest)@ + array_header(vv.len()).unwrap(),
                    write_spec(val@) == prefixed(array_header(vv.len()), vv.len(), write_all(vv)),
                    array_header(vv.len()) is Some,
                    0 <= i <= values@.len(),
                    dest@ == start + done,
                    write_all(vv).bytes == done + write_all(vv.skip(i as int)).bytes,
                    write_all(vv).too_much == write_all(vv.skip(i as int)).too_much,
                decreases values@.len() - i,
            {
                let ghost rest = vv.skip(i as int);
                proof {
                    lemma_write_all_unfold(rest);
                    assert(rest.subrange(1, rest.len() as int) =~= vv.skip(i + 1));
                    assert(rest[0] == values@[i as int]@);
                }
                let r = write_ref(dest, &values[i]);
                match r {
                    Err(e) => {
                        proof {
                            assert(dest@ =~= start + write_all(vv).bytes);
                            assert(dest@ =~= old(dest)@ + write_spec(val@).bytes);
                        }
                        return Err(e);
                    },
                    Ok(()) => {},
                }
                proof {
                    done = done + write_spec(values@[i as int]@).bytes;
                    assert(dest@ =~= start + done);
                    assert(write_all(vv).bytes =~= done + write_all(vv.skip(i + 1)).bytes);
                }
                i = i + 1;
            }
            proof {
                assert(vv.skip(i as int) =~= Seq::<SpecValue>::empty());
                assert(dest@ =~= start + write_all(vv).bytes);
            }
        },
        Value::Mapping(entries) => {
            proof {
                lemma_mapping_view(*entries);
            }
            let ghost ev = entries@;
            if !push_map_header(dest, entries.0.len()) {
                return Err(WriteError::TooMuchData(entries.0.len()));
            }
            let ghost start = dest@;
            let ghost mut done: Seq<u8> = Seq::empty();
            let mut i: usize = 0;
            proof {
                assert(ev.skip(0) =~= ev);
                assert(write_spec(val@) == prefixed(
                    map_header(ev.len()),
                    ev.len(),
                    write_entries(ev),
                ));
            }
            while i < entries.0.len()
                invariant
                    *val == Value::Mapping(*entries),
                    ev == entries@,
                    start == old(dest)@ + map_header(ev.len()).unwrap(),
                    write_spec(val@) == prefixed(map_header(ev.len()), ev.len(), write_entries(ev)),
                    map_header(ev.len()) is Some,
                    0 <= i <= entries.0@.len(),
                    dest@ == start + done,
                    write_entries(ev).bytes == done + write_entries(ev.skip(i as int)).bytes,
                    write_entries(ev).too_much == write_entries(ev.skip(i as int)).too_much,
                decreases entries.0@.len() - i,
            {
                let ghost rest = ev.skip(i as int);
                proof {
                    lemma_write_entries_unfold(rest);
                    assert(rest.subrange(1, rest.len() as int) =~= ev.skip(i + 1));
                    assert(rest[0] == (entries.0@[i as int].0@, entries.0@[i as int].1@));
                }
                let rk = write_ref(dest, &entries.0[i].0);
                match rk {
                    Err(e) => {
                        proof {
                            assert(dest@ =~= start + write_entries(ev).bytes);
                            assert(dest@ =~= old(dest)@ + write_spec(val@).bytes);
                        }
                        return Err(e);
                    },
                    Ok(()) => {},
                }
                let rv = write_ref(dest, &entries.0[i].1);
                match rv {
                    Err(e) => {
                        proof {
                            assert(dest@ =~= start + write_entries(ev).bytes);
                            assert(dest@ =~= old(dest)@ + write_spec(val@).bytes);
                        }
                        return Err(e);
                    },
                    Ok(()) => {},
                }
                proof {
                    done = done + write_spec(rest[0].0).bytes + write_spec(rest[0].1).bytes;
                    assert(dest@ =~= start + done);
                    assert(write_entries(ev).bytes =~= done + write_entries(ev.skip(i + 1)).bytes);
                }
                i = i + 1;
            }
            proof {
                assert(ev.skip(i as int) =~= Seq::<(SpecValue, SpecValue)>::empty());
                assert(dest@ =~= start + write_entries(ev).bytes);
            }
        },
    }
    proof {
        assert(final(dest)@ =~= old(dest)@ + write_spec(val@).bytes);
    }
    Ok(())
}

/// Writes a message in MessagePack format for the given value, appending it
/// to `dest`.
///
/// Where a string, byte string, array, map or extended value is longer than
/// the format can announce (more than `u32::MAX`), writing stops there with
/// `TooMuchData`, and what was written before stays in `dest`.
pub fn write_value(dest: &mut Vec<u8>, val: Value) -> (r: Result<(), WriteError>)
    ensures
        final(dest)@ == old(dest)@ + write_spec(val@).bytes,
        write_outcome(r, write_spec(val@)),
{
    write_ref(dest, &val)
}

/// Convenience wrapper for [`write_value`]: writes what `val` converts to.
pub fn write<V: IntoValue>(dest: &mut Vec<u8>, val: V) -> (r: Result<(), WriteError>)
    ensures
        final(dest)@ == old(dest)@ + write_spec(val.as_value()).bytes,
        write_outcome(r, write_spec(val.as_value())),
{
    write_value(dest, val.into_value())
}

/// [`write`] emits what [`write_value`] emits for the value that its argument
/// converts to.
pub proof fn law_write_is_write_value<V: IntoValue>(val: V, v: Value)
    requires
        v@ == val.as_value(),
    ensures
        write_spec(val.as_value()) == write_spec(v@),
{
}

/// Writes `data`, the bytes of some value, as an extended value of type
/// `id`. On success, returns the number of data bytes written.
pub fn write_ext(dest: &mut Vec<u8>, id: i8, data: &[u8]) -> (r: Result<usize, WriteError>)
    ensures
        final(dest)@ == old(dest)@ + write_spec(SpecValue::Extended(id, data@)).bytes,
        match write_spec(SpecValue::Extended(id, data@)).too_much {
            None => r == Ok::<usize, WriteError>(data@.len() as usize),
            Some(n) => r matches Err(WriteError::TooMuchData(m)) && m == n,
        },
{
    let mut copy: Vec<u8> = Vec::new();
    push_all(&mut copy, data);
    let n = data.len();
    match write_value(dest, Value::Extended(id, copy)) {
        Ok(()) => Ok(n),
        Err(e) => Err(e),
    }
}

} // verus!
