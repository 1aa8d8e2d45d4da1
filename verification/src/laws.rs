//! What reading gives back of what writing wrote.
use crate::bigendian::{
    be_bytes, lemma_be_roundtrip, lemma_padded_full, lemma_pow256_values, lemma_twos_signed,
    padded, pow256, twos,
};
use crate::byte;
use crate::decode::{
    avail, be_at, blob, extension, flatten, head, lemma_head_bounds, lemma_pairs_flatten,
    lemma_read_bounds, lemma_read_seq_unfold, payload, read_seq, read_spec, short, text, Head,
    ReadFault, Step,
};
use crate::encode::{
    array_header, lemma_write_all_unfold, lemma_write_entries_unfold, map_header, prefixed,
    write_all, write_entries, write_spec, Emitted,
};
use crate::value::SpecValue;
use vstd::prelude::*;
use vstd::utf8::{encode_utf8, encode_utf8_decode_utf8, encode_utf8_valid_utf8};

verus! {

/// Values that the writer writes in full: every length (of a string's
/// bytes, a byte string, an array, a map, extended data) fits in 32 bits.
pub open spec fn fits(v: SpecValue) -> bool
    decreases v,
{
    match v {
        SpecValue::Str(cs) => encode_utf8(cs).len() <= 0xffff_ffff,
        SpecValue::Binary(b) => b.len() <= 0xffff_ffff,
        SpecValue::Array(vs) => vs.len() <= 0xffff_ffff && all_fit(vs),
        SpecValue::Mapping(es) => es.len() <= 0xffff_ffff && all_entries_fit(es),
        SpecValue::Extended(_, d) => d.len() <= 0xffff_ffff,
        _ => true,
    }
}

/// Every value of `vs` [`fits`].
pub open spec fn all_fit(vs: Seq<SpecValue>) -> bool
    decreases vs,
{
    vs.len() == 0 || (fits(vs[0]) && all_fit(vs.subrange(1, vs.len() as int)))
}

/// Every key and value of `es` [`fits`].
pub open spec fn all_entries_fit(es: Seq<(SpecValue, SpecValue)>) -> bool
    decreases es,
{
    es.len() == 0 || (fits(es[0].0) && fits(es[0].1) && all_entries_fit(
        es.subrange(1, es.len() as int),
    ))
}

/// A read of `v` that consumed `n` bytes and never ran past the end.
pub open spec fn clean<T>(v: T, n: nat) -> Step<T> {
    Step { result: Ok(v), used: n, starved: false }
}

proof fn lemma_marker(m: u8, t: Seq<u8>)
    ensures
        (seq![m] + t).len() > 0,
        (seq![m] + t)[0] == m,
        (seq![m] + t).skip(1) =~= t,
{
}

/// An `n`-byte number written in full reads back, and the read stops right
/// after it.
proof fn lemma_be_read(x: nat, n: nat, rest: Seq<u8>)
    requires
        x < pow256(n),
    ensures
        be_at(be_bytes(x, n) + rest, n) == x,
        avail(be_bytes(x, n) + rest, n) == n,
        !short(be_bytes(x, n) + rest, n),
        (be_bytes(x, n) + rest).skip(n as int) =~= rest,
{
    lemma_be_roundtrip(x, n);
    let s = be_bytes(x, n) + rest;
    lemma_padded_full(s, n);
    assert(s.take(n as int) =~= be_bytes(x, n));
}

/// A byte on its own reads back as itself.
proof fn lemma_byte_read(b: u8, rest: Seq<u8>)
    ensures
        be_at(seq![b] + rest, 1) == b,
        avail(seq![b] + rest, 1) == 1,
        !short(seq![b] + rest, 1),
        (seq![b] + rest).skip(1) =~= rest,
{
    lemma_pow256_values();
    lemma_be_read(b as nat, 1, rest);
    reveal_with_fuel(be_bytes, 2);
    assert(be_bytes(b as nat, 1) =~= seq![b]);
}

proof fn lemma_payload_read(d: Seq<u8>, rest: Seq<u8>)
    ensures
        payload(d + rest, d.len()) =~= d,
        !short(d + rest, d.len()),
{
}

proof fn lemma_roundtrip_nil(rest: Seq<u8>)
    ensures
        write_spec(SpecValue::Nil).too_much is None,
        read_spec(write_spec(SpecValue::Nil).bytes + rest) == clean(SpecValue::Nil, write_spec(SpecValue::Nil).bytes.len()),
{
    reveal(head);
    lemma_pow256_values();
    let v = SpecValue::Nil;
    let s = write_spec(v).bytes + rest;
    lemma_marker(byte::NIL, rest);
}

proof fn lemma_roundtrip_boolean(x: bool, rest: Seq<u8>)
    ensures
        write_spec(SpecValue::Boolean(x)).too_much is None,
        read_spec(write_spec(SpecValue::Boolean(x)).bytes + rest) == clean(SpecValue::Boolean(x), write_spec(SpecValue::Boolean(x)).bytes.len()),
{
    reveal(head);
    lemma_pow256_values();
    let v = SpecValue::Boolean(x);
    let s = write_spec(v).bytes + rest;
    lemma_marker(if x { byte::TRUE } else { byte::FALSE }, rest);
}

proof fn lemma_roundtrip_u8(x: u8, rest: Seq<u8>)
    ensures
        write_spec(SpecValue::Uint8(x)).too_much is None,
        read_spec(write_spec(SpecValue::Uint8(x)).bytes + rest) == clean(SpecValue::Uint8(x), write_spec(SpecValue::Uint8(x)).bytes.len()),
{
    reveal(head);
    lemma_pow256_values();
    let v = SpecValue::Uint8(x);
    let s = write_spec(v).bytes + rest;
    assert(s =~= seq![byte::U8] + (seq![x] + rest));
    lemma_marker(byte::U8, seq![x] + rest);
    lemma_byte_read(x, rest);
}

proof fn lemma_roundtrip_i8(x: i8, rest: Seq<u8>)
    ensures
        write_spec(SpecValue::Int8(x)).too_much is None,
        read_spec(write_spec(SpecValue::Int8(x)).bytes + rest) == clean(SpecValue::Int8(x), write_spec(SpecValue::Int8(x)).bytes.len()),
{
    reveal(head);
    lemma_pow256_values();
    let v = SpecValue::Int8(x);
    let s = write_spec(v).bytes + rest;
    let b = twos(x as int, 1) as u8;
    lemma_twos_signed(x as int, 1);
    assert(s =~= seq![byte::I8] + (seq![b] + rest));
    lemma_marker(byte::I8, seq![b] + rest);
    lemma_byte_read(b, rest);
}

proof fn lemma_roundtrip_u16(x: u16, rest: Seq<u8>)
    ensures
        write_spec(SpecValue::Uint16(x)).too_much is None,
        read_spec(write_spec(SpecValue::Uint16(x)).bytes + rest) == clean(SpecValue::Uint16(x), write_spec(SpecValue::Uint16(x)).bytes.len()),
{
    reveal(head);
    lemma_pow256_values();
    let v = SpecValue::Uint16(x);
    let s = write_spec(v).bytes + rest;
    let t = be_bytes(x as nat, 2);
    assert(s =~= seq![byte::U16] + (t + rest));
    lemma_marker(byte::U16, t + rest);
    lemma_be_read(x as nat, 2, rest);
}

proof fn lemma_roundtrip_u32(x: u32, rest: Seq<u8>)
    ensures
        write_spec(SpecValue::Uint32(x)).too_much is None,
        read_spec(write_spec(SpecValue::Uint32(x)).bytes + rest) == clean(SpecValue::Uint32(x), write_spec(SpecValue::Uint32(x)).bytes.len()),
{
    reveal(head);
    lemma_pow256_values();
    let v = SpecValue::Uint32(x);
    let s = write_spec(v).bytes + rest;
    let t = be_bytes(x as nat, 4);
    assert(s =~= seq![byte::U32] + (t + rest));
    lemma_marker(byte::U32, t + rest);
    lemma_be_read(x as nat, 4, rest);
}

proof fn lemma_roundtrip_u64(x: u64, rest: Seq<u8>)
    ensures
        write_spec(SpecValue::Uint64(x)).too_much is None,
        read_spec(write_spec(SpecValue::Uint64(x)).bytes + rest) == clean(SpecValue::Uint64(x), write_spec(SpecValue::Uint64(x)).bytes.len()),
{
    reveal(head);
    lemma_pow256_values();
    let v = SpecValue::Uint64(x);
    let s = write_spec(v).bytes + rest;
    let t = be_bytes(x as nat, 8);
    assert(s =~= seq![byte::U64] + (t + rest));
    lemma_marker(byte::U64, t + rest);
    lemma_be_read(x as nat, 8, rest);
}

proof fn lemma_roundtrip_f32(x: u32, rest: Seq<u8>)
    ensures
        write_spec(SpecValue::Float32(x)).too_much is None,
        read_spec(write_spec(SpecValue::Float32(x)).bytes + rest) == clean(SpecValue::Float32(x), write_spec(SpecValue::Float32(x)).bytes.len()),
{
    reveal(head);
    lemma_pow256_values();
    let v = SpecValue::Float32(x);
    let s = write_spec(v).bytes + rest;
    let t = be_bytes(x as nat, 4);
    assert(s =~= seq![byte::F32] + (t + rest));
    lemma_marker(byte::F32, t + rest);
    lemma_be_read(x as nat, 4, rest);
}

proof fn lemma_roundtrip_f64(x: u64, rest: Seq<u8>)
    ensures
        write_spec(SpecValue::Float64(x)).too_much is None,
        read_spec(write_spec(SpecValue::Float64(x)).bytes + rest) == clean(SpecValue::Float64(x), write_spec(SpecValue::Float64(x)).bytes.len()),
{
    reveal(head);
    lemma_pow256_values();
    let v = SpecValue::Float64(x);
    let s = write_spec(v).bytes + rest;
    let t = be_bytes(x as nat, 8);
    assert(s =~= seq![byte::F64] + (t + rest));
    lemma_marker(byte::F64, t + rest);
    lemma_be_read(x as nat, 8, rest);
}

proof fn lemma_roundtrip_i16(x: i16, rest: Seq<u8>)
    ensures
        write_spec(SpecValue::Int16(x)).too_much is None,
        read_spec(write_spec(SpecValue::Int16(x)).bytes + rest) == clean(SpecValue::Int16(x), write_spec(SpecValue::Int16(x)).bytes.len()),
{
    reveal(head);
    lemma_pow256_values();
    let v = SpecValue::Int16(x);
    let s = write_spec(v).bytes + rest;
    let u = twos(x as int, 2);
    lemma_twos_signed(x as int, 2);
    let t = be_bytes(u, 2);
    assert(s =~= seq![byte::I16] + (t + rest));
    lemma_marker(byte::I16, t + rest);
    lemma_be_read(u, 2, rest);
}

proof fn lemma_roundtrip_i32(x: i32, rest: Seq<u8>)
    ensures
        write_spec(SpecValue::Int32(x)).too_much is None,
        read_spec(write_spec(SpecValue::Int32(x)).bytes + rest) == clean(SpecValue::Int32(x), write_spec(SpecValue::Int32(x)).bytes.len()),
{
    reveal(head);
    lemma_pow256_values();
    let v = SpecValue::Int32(x);
    let s = write_spec(v).bytes + rest;
    let u = twos(x as int, 4);
    lemma_twos_signed(x as int, 4);
    let t = be_bytes(u, 4);
    assert(s =~= seq![byte::I32] + (t + rest));
    lemma_marker(byte::I32, t + rest);
    lemma_be_read(u, 4, rest);
}

proof fn lemma_roundtrip_i64(x: i64, rest: Seq<u8>)
    ensures
        write_spec(SpecValue::Int64(x)).too_much is None,
        read_spec(write_spec(SpecValue::Int64(x)).bytes + rest) == clean(SpecValue::Int64(x), write_spec(SpecValue::Int64(x)).bytes.len()),
{
    reveal(head);
    lemma_pow256_values();
    let v = SpecValue::Int64(x);
    let s = write_spec(v).bytes + rest;
    let u = twos(x as int, 8);
    lemma_twos_signed(x as int, 8);
    let t = be_bytes(u, 8);
    assert(s =~= seq![byte::I64] + (t + rest));
    lemma_marker(byte::I64, t + rest);
    lemma_be_read(u, 8, rest);
}

proof fn lemma_text_read(cs: Seq<char>, rest: Seq<u8>, off: nat, st: bool)
    ensures
        text(encode_utf8(cs) + rest, off, st, encode_utf8(cs).len()) == Head::Done(
            Step {
                result: Ok::<SpecValue, ReadFault>(SpecValue::Str(cs)),
                used: off + encode_utf8(cs).len(),
                starved: st,
            },
        ),
{
    let e = encode_utf8(cs);
    lemma_payload_read(e, rest);
    encode_utf8_valid_utf8(cs);
    encode_utf8_decode_utf8(cs);
}

proof fn lemma_blob_read(d: Seq<u8>, rest: Seq<u8>, off: nat, st: bool)
    ensures
        blob(d + rest, off, st, d.len()) == Head::Done(
            Step {
                result: Ok::<SpecValue, ReadFault>(SpecValue::Binary(d)),
                used: off + d.len(),
                starved: st,
            },
        ),
{
    lemma_payload_read(d, rest);
}

proof fn lemma_extension_read(id: i8, d: Seq<u8>, rest: Seq<u8>, off: nat, st: bool)
    ensures
        extension(seq![twos(id as int, 1) as u8] + (d + rest), off, st, d.len()) == Head::Done(
            Step {
                result: Ok::<SpecValue, ReadFault>(SpecValue::Extended(id, d)),
                used: off + 1 + d.len(),
                starved: st,
            },
        ),
{
    lemma_pow256_values();
    lemma_twos_signed(id as int, 1);
    let b = twos(id as int, 1) as u8;
    lemma_byte_read(b, d + rest);
    lemma_payload_read(d, rest);
}

/// A string of the length the format can hold reads back as written.
proof fn lemma_roundtrip_str(cs: Seq<char>, rest: Seq<u8>)
    requires
        encode_utf8(cs).len() <= 0xffff_ffff,
    ensures
        write_spec(SpecValue::Str(cs)).too_much is None,
        read_spec(write_spec(SpecValue::Str(cs)).bytes + rest) == clean(
            SpecValue::Str(cs),
            write_spec(SpecValue::Str(cs)).bytes.len(),
        ),
{
    reveal(head);
    lemma_pow256_values();
    let e = encode_utf8(cs);
    let n = e.len();
    let s = write_spec(SpecValue::Str(cs)).bytes + rest;
    if n <= 31 {
        let m = (0xa0 + n) as u8;
        assert(s =~= seq![m] + (e + rest));
        lemma_marker(m, e + rest);
        lemma_text_read(cs, rest, 1, false);
    } else if n <= 0xff {
        let t = seq![n as u8] + (e + rest);
        assert(s =~= seq![byte::STR8] + t);
        lemma_marker(byte::STR8, t);
        lemma_byte_read(n as u8, e + rest);
        lemma_text_read(cs, rest, 2, false);
    } else if n <= 0xffff {
        let t = be_bytes(n, 2) + (e + rest);
        assert(s =~= seq![byte::STR16] + t);
        lemma_marker(byte::STR16, t);
        lemma_be_read(n, 2, e + rest);
        lemma_text_read(cs, rest, 3, false);
    } else {
        let t = be_bytes(n, 4) + (e + rest);
        assert(s =~= seq![byte::STR32] + t);
        lemma_marker(byte::STR32, t);
        lemma_be_read(n, 4, e + rest);
        lemma_text_read(cs, rest, 5, false);
    }
}

/// A byte string of the length the format can hold reads back as written.
proof fn lemma_roundtrip_binary(d: Seq<u8>, rest: Seq<u8>)
    requires
        d.len() <= 0xffff_ffff,
    ensures
        write_spec(SpecValue::Binary(d)).too_much is None,
        read_spec(write_spec(SpecValue::Binary(d)).bytes + rest) == clean(
            SpecValue::Binary(d),
            write_spec(SpecValue::Binary(d)).bytes.len(),
        ),
{
    reveal(head);
    lemma_pow256_values();
    let n = d.len();
    let s = write_spec(SpecValue::Binary(d)).bytes + rest;
    if n <= 0xff {
        let t = seq![n as u8] + (d + rest);
        assert(s =~= seq![byte::BIN8] + t);
        lemma_marker(byte::BIN8, t);
        lemma_byte_read(n as u8, d + rest);
        lemma_blob_read(d, rest, 2, false);
    } else if n <= 0xffff {
        let t = be_bytes(n, 2) + (d + rest);
        assert(s =~= seq![byte::BIN16] + t);
        lemma_marker(byte::BIN16, t);
        lemma_be_read(n, 2, d + rest);
        lemma_blob_read(d, rest, 3, false);
    } else {
        let t = be_bytes(n, 4) + (d + rest);
        assert(s =~= seq![byte::BIN32] + t);
        lemma_marker(byte::BIN32, t);
        lemma_be_read(n, 4, d + rest);
        lemma_blob_read(d, rest, 5, false);
    }
}

proof fn lemma_roundtrip_fixext(id: i8, d: Seq<u8>, rest: Seq<u8>)
    requires
        d.len() == 1 || d.len() == 2 || d.len() == 4 || d.len() == 8 || d.len() == 16,
    ensures
        write_spec(SpecValue::Extended(id, d)).too_much is None,
        read_spec(write_spec(SpecValue::Extended(id, d)).bytes + rest) == clean(
            SpecValue::Extended(id, d),
            write_spec(SpecValue::Extended(id, d)).bytes.len(),
        ),
{
    reveal(head);
    let b = twos(id as int, 1) as u8;
    let body = seq![b] + (d + rest);
    let s = write_spec(SpecValue::Extended(id, d)).bytes + rest;
    lemma_extension_read(id, d, rest, 1, false);
    let m = s[0];
    assert(s =~= seq![m] + body);
    lemma_marker(m, body);
}

proof fn lemma_roundtrip_ext8(id: i8, d: Seq<u8>, rest: Seq<u8>)
    requires
        d.len() <= 0xff,
        !(d.len() == 1 || d.len() == 2 || d.len() == 4 || d.len() == 8 || d.len() == 16),
    ensures
        write_spec(SpecValue::Extended(id, d)).too_much is None,
        read_spec(write_spec(SpecValue::Extended(id, d)).bytes + rest) == clean(
            SpecValue::Extended(id, d),
            write_spec(SpecValue::Extended(id, d)).bytes.len(),
        ),
{
    reveal(head);
    let n = d.len();
    let b = twos(id as int, 1) as u8;
    let body = seq![b] + (d + rest);
    let s = write_spec(SpecValue::Extended(id, d)).bytes + rest;
    lemma_extension_read(id, d, rest, 2, false);
    let t = seq![n as u8] + body;
    assert(s =~= seq![byte::EXT8] + t);
    lemma_marker(byte::EXT8, t);
    lemma_byte_read(n as u8, body);
}

proof fn lemma_roundtrip_ext16(id: i8, d: Seq<u8>, rest: Seq<u8>)
    requires
        0xff < d.len() <= 0xffff,
    ensures
        write_spec(SpecValue::Extended(id, d)).too_much is None,
        read_spec(write_spec(SpecValue::Extended(id, d)).bytes + rest) == clean(
            SpecValue::Extended(id, d),
            write_spec(SpecValue::Extended(id, d)).bytes.len(),
        ),
{
    reveal(head);
    lemma_pow256_values();
    let n = d.len();
    let b = twos(id as int, 1) as u8;
    let body = seq![b] + (d + rest);
    let s = write_spec(SpecValue::Extended(id, d)).bytes + rest;
    lemma_extension_read(id, d, rest, 3, false);
    let t = be_bytes(n, 2) + body;
    assert(s =~= seq![byte::EXT16] + t);
    lemma_marker(byte::EXT16, t);
    lemma_be_read(n, 2, body);
}

proof fn lemma_roundtrip_ext32(id: i8, d: Seq<u8>, rest: Seq<u8>)
    requires
        0xffff < d.len() <= 0xffff_ffff,
    ensures
        write_spec(SpecValue::Extended(id, d)).too_much is None,
        read_spec(write_spec(SpecValue::Extended(id, d)).bytes + rest) == clean(
            SpecValue::Extended(id, d),
            write_spec(SpecValue::Extended(id, d)).bytes.len(),
        ),
{
    reveal(head);
    lemma_pow256_values();
    let n = d.len();
    let b = twos(id as int, 1) as u8;
    let body = seq![b] + (d + rest);
    let s = write_spec(SpecValue::Extended(id, d)).bytes + rest;
    lemma_extension_read(id, d, rest, 5, false);
    let t = be_bytes(n, 4) + body;
    assert(s =~= seq![byte::EXT32] + t);
    lemma_marker(byte::EXT32, t);
    lemma_be_read(n, 4, body);
}

proof fn lemma_flatten_cons(es: Seq<(SpecValue, SpecValue)>)
    requires
        es.len() > 0,
    ensures
        flatten(es) =~= seq![es[0].0, es[0].1] + flatten(es.subrange(1, es.len() as int)),
{
    let t = es.subrange(1, es.len() as int);
    let f = flatten(es);
    let g = seq![es[0].0, es[0].1] + flatten(t);
    assert forall|i: int| 0 <= i < f.len() implies f[i] == g[i] by {
        if i >= 2 {
            assert((i - 2) / 2 == i / 2 - 1);
            assert((i - 2) % 2 == i % 2);
        }
    }
}

/// A value that [`fits`], written and then read, gives back that value, and
/// the read stops right after it, whatever follows.
pub proof fn law_read_after_write(v: SpecValue, rest: Seq<u8>)
    requires
        fits(v),
    ensures
        write_spec(v).too_much is None,
        read_spec(write_spec(v).bytes + rest) == clean(v, write_spec(v).bytes.len()),
    decreases v,
{
    match v {
        SpecValue::Nil => lemma_roundtrip_nil(rest),
        SpecValue::Boolean(x) => lemma_roundtrip_boolean(x, rest),
        SpecValue::Uint8(x) => lemma_roundtrip_u8(x, rest),
        SpecValue::Uint16(x) => lemma_roundtrip_u16(x, rest),
        SpecValue::Uint32(x) => lemma_roundtrip_u32(x, rest),
        SpecValue::Uint64(x) => lemma_roundtrip_u64(x, rest),
        SpecValue::Int8(x) => lemma_roundtrip_i8(x, rest),
        SpecValue::Int16(x) => lemma_roundtrip_i16(x, rest),
        SpecValue::Int32(x) => lemma_roundtrip_i32(x, rest),
        SpecValue::Int64(x) => lemma_roundtrip_i64(x, rest),
        SpecValue::Float32(x) => lemma_roundtrip_f32(x, rest),
        SpecValue::Float64(x) => lemma_roundtrip_f64(x, rest),
        SpecValue::Str(cs) => lemma_roundtrip_str(cs, rest),
        SpecValue::Binary(d) => lemma_roundtrip_binary(d, rest),
        SpecValue::Extended(id, d) => {
            if d.len() == 1 || d.len() == 2 || d.len() == 4 || d.len() == 8 || d.len() == 16 {
                lemma_roundtrip_fixext(id, d, rest);
            } else if d.len() <= 0xff {
                lemma_roundtrip_ext8(id, d, rest);
            } else if d.len() <= 0xffff {
                lemma_roundtrip_ext16(id, d, rest);
            } else {
                lemma_roundtrip_ext32(id, d, rest);
            }
        },
        SpecValue::Array(vs) => {
            assert(v->Array_0 == vs);
            law_read_after_write_all(vs, rest);
            lemma_roundtrip_array(vs, rest);
        },
        SpecValue::Mapping(es) => {
            assert(v->Mapping_0 == es);
            law_read_after_write_entries(es, rest);
            lemma_roundtrip_mapping(es, rest);
        },
    }
}

/// Values that fit, written one after the other, read back in order.
pub proof fn law_read_after_write_all(vs: Seq<SpecValue>, rest: Seq<u8>)
    requires
        all_fit(vs),
    ensures
        write_all(vs).too_much is None,
        read_seq(write_all(vs).bytes + rest, vs.len()) == clean(vs, write_all(vs).bytes.len()),
    decreases vs,
{
    if vs.len() == 0 {
        assert(write_all(vs).bytes + rest =~= rest);
        assert(vs =~= Seq::<SpecValue>::empty());
    } else {
        let t = vs.subrange(1, vs.len() as int);
        assert(fits(vs[0]) && all_fit(t));
        let e = write_spec(vs[0]).bytes;
        let wt = write_all(t).bytes;
        law_read_after_write_all(t, rest);
        law_read_after_write(vs[0], wt + rest);
        lemma_write_all_unfold(vs);
        let s = write_all(vs).bytes + rest;
        assert(s =~= e + (wt + rest));
        lemma_read_seq_unfold(s, vs.len());
        assert(s.skip(e.len() as int) =~= wt + rest);
        assert(seq![vs[0]] + t =~= vs);
    }
}

/// Map entries that fit, written key then value, read back in order.
pub proof fn law_read_after_write_entries(es: Seq<(SpecValue, SpecValue)>, rest: Seq<u8>)
    requires
        all_entries_fit(es),
    ensures
        write_entries(es).too_much is None,
        read_seq(write_entries(es).bytes + rest, 2 * es.len()) == clean(
            flatten(es),
            write_entries(es).bytes.len(),
        ),
    decreases es,
{
    if es.len() == 0 {
        assert(write_entries(es).bytes + rest =~= rest);
        assert(flatten(es) =~= Seq::<SpecValue>::empty());
    } else {
        let t = es.subrange(1, es.len() as int);
        assert(fits(es[0].0) && fits(es[0].1) && all_entries_fit(t));
        let k = write_spec(es[0].0).bytes;
        let v = write_spec(es[0].1).bytes;
        let wt = write_entries(t).bytes;
        law_read_after_write_entries(t, rest);
        law_read_after_write(es[0].1, wt + rest);
        law_read_after_write(es[0].0, v + (wt + rest));
        lemma_write_entries_unfold(es);
        let s = write_entries(es).bytes + rest;
        assert(s =~= k + (v + (wt + rest)));
        lemma_read_seq_unfold(s, 2 * es.len());
        let s1 = s.skip(k.len() as int);
        assert(s1 =~= v + (wt + rest));
        lemma_read_seq_unfold(s1, (2 * es.len() - 1) as nat);
        assert(s1.skip(v.len() as int) =~= wt + rest);
        lemma_flatten_cons(es);
        assert(seq![es[0].0] + (seq![es[0].1] + flatten(t)) =~= flatten(es));
    }
}

proof fn lemma_roundtrip_array(vs: Seq<SpecValue>, rest: Seq<u8>)
    requires
        vs.len() <= 0xffff_ffff,
        write_all(vs).too_much is None,
        read_seq(write_all(vs).bytes + rest, vs.len()) == clean(vs, write_all(vs).bytes.len()),
    ensures
        write_spec(SpecValue::Array(vs)).too_much is None,
        read_spec(write_spec(SpecValue::Array(vs)).bytes + rest) == clean(
            SpecValue::Array(vs),
            write_spec(SpecValue::Array(vs)).bytes.len(),
        ),
{
    reveal(head);
    lemma_pow256_values();
    let n = vs.len();
    let body = write_all(vs).bytes + rest;
    let s = write_spec(SpecValue::Array(vs)).bytes + rest;
    if n <= 15 {
        let m = (0x90 + n) as u8;
        assert(s =~= seq![m] + body);
        lemma_marker(m, body);
    } else if n <= 0xffff {
        let t = be_bytes(n, 2) + body;
        assert(s =~= seq![byte::AR16] + t);
        lemma_marker(byte::AR16, t);
        lemma_be_read(n, 2, body);
        assert(s.skip(3) =~= body);
    } else {
        let t = be_bytes(n, 4) + body;
        assert(s =~= seq![byte::AR32] + t);
        lemma_marker(byte::AR32, t);
        lemma_be_read(n, 4, body);
        assert(s.skip(5) =~= body);
    }
}

#[verifier::rlimit(40)]
proof fn lemma_roundtrip_mapping(es: Seq<(SpecValue, SpecValue)>, rest: Seq<u8>)
    requires
        es.len() <= 0xffff_ffff,
        write_entries(es).too_much is None,
        read_seq(write_entries(es).bytes + rest, 2 * es.len()) == clean(
            flatten(es),
            write_entries(es).bytes.len(),
        ),
    ensures
        write_spec(SpecValue::Mapping(es)).too_much is None,
        read_spec(write_spec(SpecValue::Mapping(es)).bytes + rest) == clean(
            SpecValue::Mapping(es),
            write_spec(SpecValue::Mapping(es)).bytes.len(),
        ),
{
    reveal(head);
    lemma_pow256_values();
    lemma_pairs_flatten(es);
    let n = es.len();
    let body = write_entries(es).bytes + rest;
    let s = write_spec(SpecValue::Mapping(es)).bytes + rest;
    if n <= 15 {
        let m = (0x80 + n) as u8;
        assert(s =~= seq![m] + body);
        lemma_marker(m, body);
    } else if n <= 0xffff {
        let t = be_bytes(n, 2) + body;
        assert(s =~= seq![byte::MAP16] + t);
        lemma_marker(byte::MAP16, t);
        lemma_be_read(n, 2, body);
        assert(s.skip(3) =~= body);
    } else {
        let t = be_bytes(n, 4) + body;
        assert(s =~= seq![byte::MAP32] + t);
        lemma_marker(byte::MAP32, t);
        lemma_be_read(n, 4, body);
        assert(s.skip(5) =~= body);
    }
}

/// Where reading fails on a byte that announces no format, that byte is
/// where the read stopped: it is 0xC1, it stands at the offset that the
/// read consumed up to, and it is left unread.
pub proof fn lemma_unrecognized_position(s: Seq<u8>, b: u8)
    requires
        read_spec(s).result == Err::<SpecValue, ReadFault>(ReadFault::Unrecognized(b)),
    ensures
        read_spec(s).used < s.len(),
        s[read_spec(s).used as int] == b,
        b == 0xc1,
    decreases s.len(), 0nat, 0nat,
{
    reveal(head);
    lemma_read_bounds(s);
    if s.len() > 0 {
        match head(s) {
            Head::Done(st) => {},
            Head::Array { count, at, starved } => {
                lemma_head_bounds(s);
                lemma_unrecognized_in_seq(s.skip(at as int), count, b);
            },
            Head::Mapping { count, at, starved } => {
                lemma_head_bounds(s);
                lemma_unrecognized_in_seq(s.skip(at as int), 2 * count, b);
            },
        }
    }
}

proof fn lemma_unrecognized_in_seq(s: Seq<u8>, n: nat, b: u8)
    requires
        read_seq(s, n).result == Err::<Seq<SpecValue>, ReadFault>(ReadFault::Unrecognized(b)),
    ensures
        read_seq(s, n).used < s.len(),
        s[read_seq(s, n).used as int] == b,
        b == 0xc1,
    decreases s.len(), 1nat, n,
{
    if n > 0 {
        lemma_read_seq_unfold(s, n);
        let a = read_spec(s);
        match a.result {
            Err(f) => {
                lemma_unrecognized_position(s, b);
            },
            Ok(v) => {
                let t = s.skip(a.used as int);
                lemma_unrecognized_in_seq(t, (n - 1) as nat, b);
            },
        }
    }
}

/// A byte that the reader does not recognize is left unread: reading again
/// from where the failed read stopped fails the same way, and consumes
/// nothing.
pub proof fn law_unrecognized_byte_stays(s: Seq<u8>, b: u8)
    requires
        read_spec(s).result == Err::<SpecValue, ReadFault>(ReadFault::Unrecognized(b)),
    ensures
        read_spec(s.skip(read_spec(s).used as int)) == (Step::<SpecValue> {
            result: Err(ReadFault::Unrecognized(b)),
            used: 0,
            starved: false,
        }),
{
    lemma_unrecognized_position(s, b);
    reveal(head);
    let t = s.skip(read_spec(s).used as int);
    assert(t[0] == b);
}

/* -- Reading a prefix of a stream -- */

/// Whether what a leading byte announces needed more bytes than there were.
pub open spec fn head_starved(h: Head) -> bool {
    match h {
        Head::Done(st) => st.starved,
        Head::Array { count, at, starved } => starved,
        Head::Mapping { count, at, starved } => starved,
    }
}

proof fn lemma_prefix_num(r: Seq<u8>, t: Seq<u8>, n: nat)
    requires
        n <= r.len(),
    ensures
        be_at(r + t, n) == be_at(r, n),
        avail(r + t, n) == n,
        avail(r, n) == n,
        !short(r + t, n),
        !short(r, n),
{
    assert(padded(r + t, n) =~= padded(r, n));
}

proof fn lemma_prefix_skip(r: Seq<u8>, t: Seq<u8>, k: nat)
    requires
        k <= r.len(),
    ensures
        (r + t).skip(k as int) =~= r.skip(k as int) + t,
{
}

proof fn lemma_prefix_payload(r: Seq<u8>, t: Seq<u8>, n: nat)
    requires
        n <= r.len(),
    ensures
        payload(r + t, n) =~= payload(r, n),
        avail(r + t, n) == avail(r, n),
{
}

proof fn lemma_prefix_text(r: Seq<u8>, t: Seq<u8>, off: nat, st: bool, n: nat)
    requires
        !head_starved(text(r, off, st, n)),
    ensures
        text(r + t, off, st, n) == text(r, off, st, n),
{
    lemma_prefix_payload(r, t, n);
}

proof fn lemma_prefix_blob(r: Seq<u8>, t: Seq<u8>, off: nat, st: bool, n: nat)
    requires
        !head_starved(blob(r, off, st, n)),
    ensures
        blob(r + t, off, st, n) == blob(r, off, st, n),
{
    lemma_prefix_payload(r, t, n);
}

proof fn lemma_prefix_extension(r: Seq<u8>, t: Seq<u8>, off: nat, st: bool, n: nat)
    requires
        !head_starved(extension(r, off, st, n)),
    ensures
        extension(r + t, off, st, n) == extension(r, off, st, n),
{
    lemma_prefix_num(r, t, 1);
    lemma_prefix_skip(r, t, 1);
    lemma_prefix_payload(r.skip(1), t, n);
}

/// What a leading byte announces does not change with more input, where it
/// needed no byte beyond the input.
proof fn lemma_head_prefix(s: Seq<u8>, t: Seq<u8>)
    requires
        s.len() > 0,
        !head_starved(head(s)),
    ensures
        head(s + t) == head(s),
{
    reveal(head);
    let b = s[0];
    let r = s.skip(1);
    assert((s + t)[0] == b);
    assert((s + t).skip(1) =~= r + t);
    if b == byte::U8 || b == byte::I8 || b == byte::STR8 || b == byte::BIN8 || b == byte::EXT8 {
        lemma_prefix_num(r, t, 1);
        lemma_prefix_skip(r, t, 1);
    } else if b == byte::U16 || b == byte::I16 || b == byte::STR16 || b == byte::BIN16 || b
        == byte::EXT16 || b == byte::AR16 || b == byte::MAP16 {
        lemma_prefix_num(r, t, 2);
        lemma_prefix_skip(r, t, 2);
    } else if b == byte::U32 || b == byte::I32 || b == byte::F32 || b == byte::STR32 || b
        == byte::BIN32 || b == byte::EXT32 || b == byte::AR32 || b == byte::MAP32 {
        lemma_prefix_num(r, t, 4);
        lemma_prefix_skip(r, t, 4);
    } else if b == byte::U64 || b == byte::I64 || b == byte::F64 {
        lemma_prefix_num(r, t, 8);
    }
    if byte::FIXSTR_RANGE_START <= b <= byte::FIXSTR_RANGE_END {
        lemma_prefix_text(r, t, 1, false, (b - 0xa0) as nat);
    } else if b == byte::STR8 {
        lemma_prefix_text(r.skip(1), t, 2, false, be_at(r, 1));
    } else if b == byte::STR16 {
        lemma_prefix_text(r.skip(2), t, 3, false, be_at(r, 2));
    } else if b == byte::STR32 {
        lemma_prefix_text(r.skip(4), t, 5, false, be_at(r, 4));
    } else if b == byte::BIN8 {
        lemma_prefix_blob(r.skip(1), t, 2, false, be_at(r, 1));
    } else if b == byte::BIN16 {
        lemma_prefix_blob(r.skip(2), t, 3, false, be_at(r, 2));
    } else if b == byte::BIN32 {
        lemma_prefix_blob(r.skip(4), t, 5, false, be_at(r, 4));
    } else if b == byte::EXT8 {
        lemma_prefix_extension(r.skip(1), t, 2, false, be_at(r, 1));
    } else if b == byte::EXT16 {
        lemma_prefix_extension(r.skip(2), t, 3, false, be_at(r, 2));
    } else if b == byte::EXT32 {
        lemma_prefix_extension(r.skip(4), t, 5, false, be_at(r, 4));
    } else if b == byte::FIXEXT1 {
        lemma_prefix_extension(r, t, 1, false, 1);
    } else if b == byte::FIXEXT2 {
        lemma_prefix_extension(r, t, 1, false, 2);
    } else if b == byte::FIXEXT4 {
        lemma_prefix_extension(r, t, 1, false, 4);
    } else if b == byte::FIXEXT8 {
        lemma_prefix_extension(r, t, 1, false, 8);
    } else if b == byte::FIXEXT16 {
        lemma_prefix_extension(r, t, 1, false, 16);
    }
}

/// A read that did not run past the end of its input gives the same
/// outcome whatever bytes come after: a value read from a stream is final
/// once its own bytes are there.
pub proof fn law_read_prefix(s: Seq<u8>, t: Seq<u8>)
    requires
        !read_spec(s).starved,
    ensures
        read_spec(s + t) == read_spec(s),
    decreases s.len(), 0nat, 0nat,
{
    if s.len() > 0 {
        lemma_head_bounds(s);
        assert((s + t).len() > 0);
        match head(s) {
            Head::Done(st) => {
                lemma_head_prefix(s, t);
            },
            Head::Array { count, at, starved } => {
                lemma_head_prefix(s, t);
                lemma_prefix_skip(s, t, at);
                lemma_read_seq_prefix(s.skip(at as int), t, count);
            },
            Head::Mapping { count, at, starved } => {
                lemma_head_prefix(s, t);
                lemma_prefix_skip(s, t, at);
                lemma_read_seq_prefix(s.skip(at as int), t, 2 * count);
            },
        }
    }
}

proof fn lemma_read_seq_prefix(s: Seq<u8>, t: Seq<u8>, n: nat)
    requires
        !read_seq(s, n).starved,
    ensures
        read_seq(s + t, n) == read_seq(s, n),
    decreases s.len(), 1nat, n,
{
    if n > 0 {
        lemma_read_seq_unfold(s, n);
        lemma_read_seq_unfold(s + t, n);
        let a = read_spec(s);
        law_read_prefix(s, t);
        if a.result is Ok {
            lemma_prefix_skip(s, t, a.used);
            lemma_read_seq_prefix(s.skip(a.used as int), t, (n - 1) as nat);
        }
    }
}

/// The only byte that the reader does not recognize is 0xC1: reading fails
/// at once, consuming nothing, exactly where the input starts with it.
pub proof fn law_unrecognized_is_c1(s: Seq<u8>, b: u8)
    requires
        s.len() > 0,
    ensures
        (read_spec(s).result == Err::<SpecValue, ReadFault>(ReadFault::Unrecognized(b))
            && read_spec(s).used == 0) <==> (s[0] == 0xc1 && b == 0xc1),
{
    reveal(head);
    if read_spec(s).result == Err::<SpecValue, ReadFault>(ReadFault::Unrecognized(b)) {
        lemma_unrecognized_position(s, b);
    }
}

/// Writing fails exactly where some length does not fit in 32 bits, and
/// the length it reports is one that does not fit.
pub proof fn law_write_fails_only_on_long(v: SpecValue)
    ensures
        write_spec(v).too_much is None <==> fits(v),
        write_spec(v).too_much matches Some(n) ==> n > 0xffff_ffff,
    decreases v,
{
    match v {
        SpecValue::Array(vs) => {
            assert(v->Array_0 == vs);
            law_write_all_fails_only_on_long(vs);
        },
        SpecValue::Mapping(es) => {
            assert(v->Mapping_0 == es);
            law_write_entries_fail_only_on_long(es);
        },
        _ => {},
    }
}

/// [`law_write_fails_only_on_long`] for values written one after the other.
pub proof fn law_write_all_fails_only_on_long(vs: Seq<SpecValue>)
    ensures
        write_all(vs).too_much is None <==> all_fit(vs),
        write_all(vs).too_much matches Some(n) ==> n > 0xffff_ffff,
    decreases vs,
{
    if vs.len() > 0 {
        let t = vs.subrange(1, vs.len() as int);
        law_write_fails_only_on_long(vs[0]);
        law_write_all_fails_only_on_long(t);
        lemma_write_all_unfold(vs);
        assert(all_fit(vs) == (fits(vs[0]) && all_fit(t)));
    }
}

/// [`law_write_fails_only_on_long`] for map entries.
pub proof fn law_write_entries_fail_only_on_long(es: Seq<(SpecValue, SpecValue)>)
    ensures
        write_entries(es).too_much is None <==> all_entries_fit(es),
        write_entries(es).too_much matches Some(n) ==> n > 0xffff_ffff,
    decreases es,
{
    if es.len() > 0 {
        let t = es.subrange(1, es.len() as int);
        law_write_fails_only_on_long(es[0].0);
        law_write_fails_only_on_long(es[0].1);
        law_write_entries_fail_only_on_long(t);
        lemma_write_entries_unfold(es);
        assert(all_entries_fit(es) == (fits(es[0].0) && fits(es[0].1) && all_entries_fit(t)));
    }
}

proof fn lemma_write_all_push(xs: Seq<SpecValue>, x: SpecValue)
    requires
        write_all(xs).too_much is None,
    ensures
        write_all(xs.push(x)) == (Emitted {
            bytes: write_all(xs).bytes + write_spec(x).bytes,
            too_much: write_spec(x).too_much,
        }),
    decreases xs.len(),
{
    let ys = xs.push(x);
    lemma_write_all_unfold(ys);
    if xs.len() == 0 {
        assert(ys.subrange(1, ys.len() as int) =~= Seq::<SpecValue>::empty());
        assert(write_all(xs).bytes =~= Seq::<u8>::empty());
        assert(write_spec(x).bytes + Seq::<u8>::empty() =~= write_spec(x).bytes);
    } else {
        let t = xs.subrange(1, xs.len() as int);
        lemma_write_all_unfold(xs);
        lemma_write_all_push(t, x);
        assert(ys.subrange(1, ys.len() as int) =~= t.push(x));
        assert(ys[0] == xs[0]);
        assert(write_spec(xs[0]).bytes + (write_all(t).bytes + write_spec(x).bytes) =~= (
        write_spec(xs[0]).bytes + write_all(t).bytes) + write_spec(x).bytes);
    }
}

/// An array is written as its length prefix, then its elements one after the
/// other, in order: the bytes of element `i` follow those of the elements
/// before it.
pub proof fn law_array_layout(xs: Seq<SpecValue>, i: int)
    requires
        0 <= i < xs.len(),
        write_all(xs.take(i)).too_much is None,
    ensures
        write_spec(SpecValue::Array(xs)) == prefixed(array_header(xs.len()), xs.len(), write_all(xs)),
        write_all(xs.take(i + 1)) == (Emitted {
            bytes: write_all(xs.take(i)).bytes + write_spec(xs[i]).bytes,
            too_much: write_spec(xs[i]).too_much,
        }),
{
    assert(xs.take(i + 1) =~= xs.take(i).push(xs[i]));
    lemma_write_all_push(xs.take(i), xs[i]);
}

proof fn lemma_write_entries_push(es: Seq<(SpecValue, SpecValue)>, e: (SpecValue, SpecValue))
    requires
        write_entries(es).too_much is None,
    ensures
        write_entries(es.push(e)) == (if write_spec(e.0).too_much is Some {
            Emitted { bytes: write_entries(es).bytes + write_spec(e.0).bytes, too_much: write_spec(e.0).too_much }
        } else {
            Emitted {
                bytes: write_entries(es).bytes + write_spec(e.0).bytes + write_spec(e.1).bytes,
                too_much: write_spec(e.1).too_much,
            }
        }),
    decreases es.len(),
{
    let ys = es.push(e);
    lemma_write_entries_unfold(ys);
    if es.len() == 0 {
        assert(ys.subrange(1, ys.len() as int) =~= Seq::<(SpecValue, SpecValue)>::empty());
        assert(write_entries(es).bytes =~= Seq::<u8>::empty());
        assert(Seq::<u8>::empty() + write_spec(e.0).bytes =~= write_spec(e.0).bytes);
        assert(write_spec(e.0).bytes + write_spec(e.1).bytes + Seq::<u8>::empty() =~= Seq::<
            u8,
        >::empty() + write_spec(e.0).bytes + write_spec(e.1).bytes);
    } else {
        let t = es.subrange(1, es.len() as int);
        lemma_write_entries_unfold(es);
        lemma_write_entries_push(t, e);
        assert(ys.subrange(1, ys.len() as int) =~= t.push(e));
        assert(ys[0] == es[0]);
        let h = write_spec(es[0].0).bytes + write_spec(es[0].1).bytes;
        assert(h + (write_entries(t).bytes + write_spec(e.0).bytes) =~= (h + write_entries(
            t,
        ).bytes) + write_spec(e.0).bytes);
        assert(h + (write_entries(t).bytes + write_spec(e.0).bytes + write_spec(e.1).bytes) =~= (h
            + write_entries(t).bytes) + write_spec(e.0).bytes + write_spec(e.1).bytes);
    }
}

/// A map is written as its length prefix, then its entries in order, each as
/// its key followed by its value.
pub proof fn law_map_layout(es: Seq<(SpecValue, SpecValue)>, i: int)
    requires
        0 <= i < es.len(),
        write_entries(es.take(i)).too_much is None,
    ensures
        write_spec(SpecValue::Mapping(es)) == prefixed(map_header(es.len()), es.len(), write_entries(es)),
        write_spec(es[i].0).too_much is None && write_spec(es[i].1).too_much is None ==> write_entries(
            es.take(i + 1),
        ) == (Emitted {
            bytes: write_entries(es.take(i)).bytes + write_spec(es[i].0).bytes + write_spec(
                es[i].1,
            ).bytes,
            too_much: None,
        }),
{
    assert(es.take(i + 1) =~= es.take(i).push(es[i]));
    lemma_write_entries_push(es.take(i), es[i]);
}

/// A write only appends: what the buffer held before stays in front, and
/// after it stand exactly the bytes that the write emitted, whether it
/// succeeded or stopped on a length the format cannot hold.
pub proof fn law_write_only_appends(before: Seq<u8>, v: SpecValue)
    ensures
        (before + write_spec(v).bytes).take(before.len() as int) == before,
        (before + write_spec(v).bytes).skip(before.len() as int) == write_spec(v).bytes,
{
    assert((before + write_spec(v).bytes).take(before.len() as int) =~= before);
    assert((before + write_spec(v).bytes).skip(before.len() as int) =~= write_spec(v).bytes);
}

} // verus!
