//! The leading bytes ("markers") of the MessagePack wire format.
use vstd::prelude::*;

verus! {

pub const FIXINT_POS_RANGE_START: u8 = 0x00;
pub const FIXINT_POS_RANGE_END: u8 = 0x7F;

pub const FIXMAP_RANGE_START: u8 = 0x80;
pub const FIXMAP_RANGE_END: u8 = 0x8F;

pub const FIXARRAY_RANGE_START: u8 = 0x90;
pub const FIXARRAY_RANGE_END: u8 = 0x9F;

pub const FIXSTR_RANGE_START: u8 = 0xA0;
pub const FIXSTR_RANGE_END: u8 = 0xBF;

pub const NIL: u8 = 0xC0;

pub const FALSE: u8 = 0xC2;
pub const TRUE: u8 = 0xC3;

pub const U8: u8 = 0xCC;
pub const U16: u8 = 0xCD;
pub const U32: u8 = 0xCE;
pub const U64: u8 = 0xCF;

pub const I8: u8 = 0xD0;
pub const I16: u8 = 0xD1;
pub const I32: u8 = 0xD2;
pub const I64: u8 = 0xD3;
pub const F32: u8 = 0xCA;
pub const F64: u8 = 0xCB;

pub const STR8: u8 = 0xD9;
pub const STR16: u8 = 0xDA;
pub const STR32: u8 = 0xDB;

pub const BIN8: u8 = 0xC4;
pub const BIN16: u8 = 0xC5;
pub const BIN32: u8 = 0xC6;

pub const AR16: u8 = 0xDC;
pub const AR32: u8 = 0xDD;

pub const MAP16: u8 = 0xDE;
pub const MAP32: u8 = 0xDF;

pub const FIXEXT1: u8 = 0xD4;
pub const FIXEXT2: u8 = 0xD5;
pub const FIXEXT4: u8 = 0xD6;
pub const FIXEXT8: u8 = 0xD7;
pub const FIXEXT16: u8 = 0xD8;

pub const EXT8: u8 = 0xC7;
pub const EXT16: u8 = 0xC8;
pub const EXT32: u8 = 0xC9;

pub const FIXINT_NEG_RANGE_START: u8 = 0xE0;
pub const FIXINT_NEG_RANGE_END: u8 = 0xFF;

/// The name of the format that a leading byte announces.
pub open spec fn desc_spec(b: u8) -> Seq<char> {
    if b <= FIXINT_POS_RANGE_END {
        "POS FIXINT"@
    } else if FIXMAP_RANGE_START <= b <= FIXMAP_RANGE_END {
        "FIXMAP"@
    } else if FIXARRAY_RANGE_START <= b <= FIXARRAY_RANGE_END {
        "FIXARRAY"@
    } else if FIXSTR_RANGE_START <= b <= FIXSTR_RANGE_END {
        "FIXSTR"@
    } else if b == NIL {
        "NIL"@
    } else if b == FALSE {
        "FALSE"@
    } else if b == TRUE {
        "TRUE"@
    } else if b == U8 {
        "U8"@
    } else if b == U16 {
        "U16"@
    } else if b == U32 {
        "U32"@
    } else if b == U64 {
        "U64"@
    } else if b == I8 {
        "I8"@
    } else if b == I16 {
        "I16"@
    } else if b == I32 {
        "I32"@
    } else if b == I64 {
        "I64"@
    } else if b == F32 {
        "F32"@
    } else if b == F64 {
        "F64"@
    } else if b == STR8 {
        "STR8"@
    } else if b == STR16 {
        "STR16"@
    } else if b == STR32 {
        "STR32"@
    } else if b == BIN8 {
        "BIN8"@
    } else if b == BIN16 {
        "BIN16"@
    } else if b == BIN32 {
        "BIN32"@
    } else if b == AR16 {
        "AR16"@
    } else if b == AR32 {
        "AR32"@
    } else if b == MAP16 {
        "MAP16"@
    } else if b == MAP32 {
        "MAP32"@
    } else if b == FIXEXT1 {
        "FIXEXT1"@
    } else if b == FIXEXT2 {
        "FIXEXT2"@
    } else if b == FIXEXT4 {
        "FIXEXT4"@
    } else if b == FIXEXT8 {
        "FIXEXT8"@
    } else if b == FIXEXT16 {
        "FIXEXT16"@
    } else if b == EXT8 {
        "EXT8"@
    } else if b == EXT16 {
        "EXT16"@
    } else if b == EXT32 {
        "EXT32"@
    } else if FIXINT_NEG_RANGE_START <= b {
        "NEG FIXINT"@
    } else {
        "<unknown>"@
    }
}

/// A human-readable name for the format that the leading byte `b` announces.
pub fn desc(b: u8) -> (r: &'static str)
    ensures
        r@ == desc_spec(b),
{
    match b {
        FIXINT_POS_RANGE_START..=FIXINT_POS_RANGE_END => "POS FIXINT",
        FIXMAP_RANGE_START..=FIXMAP_RANGE_END => "FIXMAP",
        FIXARRAY_RANGE_START..=FIXARRAY_RANGE_END => "FIXARRAY",
        FIXSTR_RANGE_START..=FIXSTR_RANGE_END => "FIXSTR",
        NIL => "NIL",
        FALSE => "FALSE",
        TRUE => "TRUE",
        U8 => "U8",
        U16 => "U16",
        U32 => "U32",
        U64 => "U64",
        I8 => "I8",
        I16 => "I16",
        I32 => "I32",
        I64 => "I64",
        F32 => "F32",
        F64 => "F64",
        STR8 => "STR8",
        STR16 => "STR16",
        STR32 => "STR32",
        BIN8 => "BIN8",
        BIN16 => "BIN16",
        BIN32 => "BIN32",
        AR16 => "AR16",
        AR32 => "AR32",
        MAP16 => "MAP16",
        MAP32 => "MAP32",
        FIXEXT1 => "FIXEXT1",
        FIXEXT2 => "FIXEXT2",
        FIXEXT4 => "FIXEXT4",
        FIXEXT8 => "FIXEXT8",
        FIXEXT16 => "FIXEXT16",
        EXT8 => "EXT8",
        EXT16 => "EXT16",
        EXT32 => "EXT32",
        FIXINT_NEG_RANGE_START..=FIXINT_NEG_RANGE_END => "NEG FIXINT",
        _ => "<unknown>",
    }
}

/// 0xC1 is the one byte that names no format: [`desc`] calls every other
/// byte by the name of a format, and 0xC1 "<unknown>".
pub proof fn law_desc_unknown_is_c1(b: u8)
    ensures
        desc_spec(b) == "<unknown>"@ <==> b == 0xc1,
{
    reveal_strlit("POS FIXINT");
    reveal_strlit("FIXMAP");
    reveal_strlit("FIXARRAY");
    reveal_strlit("FIXSTR");
    reveal_strlit("NIL");
    reveal_strlit("FALSE");
    reveal_strlit("TRUE");
    reveal_strlit("U8");
    reveal_strlit("U16");
    reveal_strlit("U32");
    reveal_strlit("U64");
    reveal_strlit("I8");
    reveal_strlit("I16");
    reveal_strlit("I32");
    reveal_strlit("I64");
    reveal_strlit("F32");
    reveal_strlit("F64");
    reveal_strlit("STR8");
    reveal_strlit("STR16");
    reveal_strlit("STR32");
    reveal_strlit("BIN8");
    reveal_strlit("BIN16");
    reveal_strlit("BIN32");
    reveal_strlit("AR16");
    reveal_strlit("AR32");
    reveal_strlit("MAP16");
    reveal_strlit("MAP32");
    reveal_strlit("FIXEXT1");
    reveal_strlit("FIXEXT2");
    reveal_strlit("FIXEXT4");
    reveal_strlit("FIXEXT8");
    reveal_strlit("FIXEXT16");
    reveal_strlit("EXT8");
    reveal_strlit("EXT16");
    reveal_strlit("EXT32");
    reveal_strlit("NEG FIXINT");
    reveal_strlit("<unknown>");
    assert("<unknown>"@[0] == '<');
    if b != 0xc1 {
        assert(desc_spec(b).len() > 0 && desc_spec(b)[0] != '<');
    }
}

} // verus!
