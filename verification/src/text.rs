//! The text that describes a value in error messages, variant by variant,
//! in the form of a derived `Debug` (such as `Array([Int8(1), Nil])` or
//! `Map(ValueMap([(Nil, Boolean(true))]))`). A float shows its bit pattern.
use crate::value::{lemma_array_view, lemma_mapping_view, values_view, SpecValue, Value};
use vstd::prelude::*;
use vstd::string::StringExecFns;

verus! {

/// The decimal digit `d`.
pub open spec fn digit_text(d: nat) -> Seq<char> {
    if d == 0 {
        "0"@
    } else if d == 1 {
        "1"@
    } else if d == 2 {
        "2"@
    } else if d == 3 {
        "3"@
    } else if d == 4 {
        "4"@
    } else if d == 5 {
        "5"@
    } else if d == 6 {
        "6"@
    } else if d == 7 {
        "7"@
    } else if d == 8 {
        "8"@
    } else {
        "9"@
    }
}

/// The decimal digits of `n`, without leading zeros.
pub open spec fn nat_text(n: nat) -> Seq<char>
    decreases n,
{
    if n < 10 {
        digit_text(n)
    } else {
        nat_text(n / 10) + digit_text(n % 10)
    }
}

/// The decimal text of `i`, with a minus sign where it is negative.
pub open spec fn int_text(i: int) -> Seq<char> {
    if i < 0 {
        "-"@ + nat_text((-i) as nat)
    } else {
        nat_text(i as nat)
    }
}

/// The number that a sequence of decimal digits denotes.
pub open spec fn decimal_value(s: Seq<char>) -> int
    decreases s.len(),
{
    if s.len() == 0 {
        0
    } else {
        decimal_value(s.drop_last()) * 10 + (s.last() as int - '0' as int)
    }
}

proof fn lemma_digit_text(d: nat)
    requires
        d < 10,
    ensures
        digit_text(d).len() == 1,
        digit_text(d)[0] as int == '0' as int + d,
{
    reveal_strlit("0");
    reveal_strlit("1");
    reveal_strlit("2");
    reveal_strlit("3");
    reveal_strlit("4");
    reveal_strlit("5");
    reveal_strlit("6");
    reveal_strlit("7");
    reveal_strlit("8");
    reveal_strlit("9");
}

/// A number is written in decimal: one or more digits, with no leading
/// zero, that denote the number.
pub proof fn law_nat_text_is_decimal(n: nat)
    ensures
        nat_text(n).len() > 0,
        forall|i: int|
            0 <= i < nat_text(n).len() ==> '0' as int <= #[trigger] nat_text(n)[i] as int <= '9' as int,
        n > 0 ==> nat_text(n)[0] != '0',
        decimal_value(nat_text(n)) == n,
    decreases n,
{
    lemma_digit_text(n % 10);
    if n >= 10 {
        law_nat_text_is_decimal(n / 10);
        let t = nat_text(n / 10);
        let u = digit_text(n % 10);
        assert(nat_text(n) == t + u);
        assert((t + u).drop_last() =~= t);
        assert((t + u).last() == u[0]);
        assert forall|i: int|
            0 <= i < nat_text(n).len() implies '0' as int <= #[trigger] nat_text(n)[i] as int
            <= '9' as int by {
            if i < t.len() {
                assert(nat_text(n)[i] == t[i]);
            }
        }
        assert(nat_text(n)[0] == t[0]);
        assert(decimal_value(nat_text(n)) == decimal_value(t) * 10 + (u[0] as int - '0' as int));
        assert((n / 10) * 10 + n % 10 == n);
    } else {
        assert(digit_text(n).drop_last() =~= Seq::<char>::empty());
        assert(decimal_value(nat_text(n)) == decimal_value(Seq::<char>::empty()) * 10 + (
        digit_text(n)[0] as int - '0' as int));
        if n > 0 {
            assert(nat_text(n)[0] as int != '0' as int);
        }
    }
}

/// A negative number is written as a minus sign followed by the decimal
/// digits of its magnitude; any other as its decimal digits.
pub proof fn law_int_text_is_decimal(i: int)
    ensures
        i < 0 ==> int_text(i).len() > 1 && int_text(i)[0] == '-' && decimal_value(
            int_text(i).skip(1),
        ) == -i,
        i >= 0 ==> decimal_value(int_text(i)) == i && int_text(i)[0] != '-',
{
    reveal_strlit("-");
    if i < 0 {
        law_nat_text_is_decimal((-i) as nat);
        assert(int_text(i).skip(1) =~= nat_text((-i) as nat));
    } else {
        law_nat_text_is_decimal(i as nat);
        assert('0' as int <= nat_text(i as nat)[0] as int);
    }
}

/// The text that `{:?}` gives for a string: quoted, with its characters
/// escaped.
pub uninterp spec fn str_text(s: Seq<char>) -> Seq<char>;

/// `format!("{:?}", s)`: the string's `Debug` text.
#[verifier::external_body]
fn str_string(s: &str) -> (r: String)
    ensures
        r@ == str_text(s@),
{
    format!("{:?}", s)
}

fn digit_str(d: u64) -> (r: &'static str)
    requires
        d < 10,
    ensures
        r@ == digit_text(d as nat),
{
    if d == 0 {
        "0"
    } else if d == 1 {
        "1"
    } else if d == 2 {
        "2"
    } else if d == 3 {
        "3"
    } else if d == 4 {
        "4"
    } else if d == 5 {
        "5"
    } else if d == 6 {
        "6"
    } else if d == 7 {
        "7"
    } else if d == 8 {
        "8"
    } else {
        "9"
    }
}

/// Appends the decimal digits of `n`.
pub fn push_nat(out: &mut String, n: u64)
    ensures
        final(out)@ == old(out)@ + nat_text(n as nat),
    decreases n,
{
    if n < 10 {
        out.append(digit_str(n));
    } else {
        push_nat(out, n / 10);
        out.append(digit_str(n % 10));
        assert(final(out)@ =~= old(out)@ + nat_text(n as nat));
    }
}

/// Appends the decimal text of `i`.
pub fn push_int(out: &mut String, i: i64)
    ensures
        final(out)@ == old(out)@ + int_text(i as int),
{
    if i < 0 {
        out.append("-");
        let m: u64 = (-(i as i128)) as u64;
        push_nat(out, m);
        assert(final(out)@ =~= old(out)@ + int_text(i as int));
    } else {
        push_nat(out, i as u64);
    }
}

pub open spec fn bool_text(b: bool) -> Seq<char> {
    if b {
        "true"@
    } else {
        "false"@
    }
}

/// The bytes `b` as decimal numbers separated by ", ".
pub open spec fn bytes_text(b: Seq<u8>) -> Seq<char>
    decreases b.len(),
{
    if b.len() == 0 {
        Seq::empty()
    } else if b.len() == 1 {
        nat_text(b[0] as nat)
    } else {
        bytes_text(b.subrange(0, b.len() - 1)) + ", "@ + nat_text(b[b.len() - 1] as nat)
    }
}

/// The text that describes a value.
pub open spec fn value_text(v: SpecValue) -> Seq<char>
    decreases v,
{
    match v {
        SpecValue::Nil => "Nil"@,
        SpecValue::Boolean(b) => "Boolean("@ + bool_text(b) + ")"@,
        SpecValue::Uint8(x) => "Uint8("@ + nat_text(x as nat) + ")"@,
        SpecValue::Uint16(x) => "Uint16("@ + nat_text(x as nat) + ")"@,
        SpecValue::Uint32(x) => "Uint32("@ + nat_text(x as nat) + ")"@,
        SpecValue::Uint64(x) => "Uint64("@ + nat_text(x as nat) + ")"@,
        SpecValue::Int8(x) => "Int8("@ + int_text(x as int) + ")"@,
        SpecValue::Int16(x) => "Int16("@ + int_text(x as int) + ")"@,
        SpecValue::Int32(x) => "Int32("@ + int_text(x as int) + ")"@,
        SpecValue::Int64(x) => "Int64("@ + int_text(x as int) + ")"@,
        SpecValue::Float32(x) => "Float32("@ + nat_text(x as nat) + ")"@,
        SpecValue::Float64(x) => "Float64("@ + nat_text(x as nat) + ")"@,
        SpecValue::Str(cs) => "String("@ + str_text(cs) + ")"@,
        SpecValue::Binary(b) => "Binary(["@ + bytes_text(b) + "])"@,
        SpecValue::Array(vs) => "Array(["@ + values_text(vs) + "])"@,
        SpecValue::Mapping(es) => "Map(ValueMap(["@ + entries_text(es) + "]))"@,
        SpecValue::Extended(t, d) => "Extended("@ + int_text(t as int) + ", ["@ + bytes_text(d)
            + "])"@,
    }
}

/// The texts of `vs` separated by ", ".
pub open spec fn values_text(vs: Seq<SpecValue>) -> Seq<char>
    decreases vs,
{
    if vs.len() == 0 {
        Seq::empty()
    } else if vs.len() == 1 {
        value_text(vs[0])
    } else {
        values_text(vs.subrange(0, vs.len() - 1)) + ", "@ + value_text(vs[vs.len() - 1])
    }
}

/// The text of a map entry: `(key, value)`.
pub open spec fn entry_text(k: Seq<char>, v: Seq<char>) -> Seq<char> {
    "("@ + k + ", "@ + v + ")"@
}

/// The texts of the entries `es` separated by ", ".
pub open spec fn entries_text(es: Seq<(SpecValue, SpecValue)>) -> Seq<char>
    decreases es,
{
    if es.len() == 0 {
        Seq::empty()
    } else if es.len() == 1 {
        entry_text(value_text(es[0].0), value_text(es[0].1))
    } else {
        entries_text(es.subrange(0, es.len() - 1)) + ", "@ + entry_text(
            value_text(es[es.len() - 1].0),
            value_text(es[es.len() - 1].1),
        )
    }
}

proof fn lemma_values_text_step(vs: Seq<SpecValue>, i: int)
    requires
        0 <= i < vs.len(),
    ensures
        values_text(vs.take(i + 1)) == (if i == 0 {
            value_text(vs[0])
        } else {
            values_text(vs.take(i)) + ", "@ + value_text(vs[i])
        }),
{
    let t = vs.take(i + 1);
    assert(t.subrange(0, t.len() - 1) =~= vs.take(i));
    assert(t[i] == vs[i]);
}

proof fn lemma_entries_text_step(es: Seq<(SpecValue, SpecValue)>, i: int)
    requires
        0 <= i < es.len(),
    ensures
        entries_text(es.take(i + 1)) == (if i == 0 {
            entry_text(value_text(es[0].0), value_text(es[0].1))
        } else {
            entries_text(es.take(i)) + ", "@ + entry_text(value_text(es[i].0), value_text(es[i].1))
        }),
{
    let t = es.take(i + 1);
    assert(t.subrange(0, t.len() - 1) =~= es.take(i));
    assert(t[i] == es[i]);
}

proof fn lemma_bytes_text_step(b: Seq<u8>, i: int)
    requires
        0 <= i < b.len(),
    ensures
        bytes_text(b.take(i + 1)) == (if i == 0 {
            nat_text(b[0] as nat)
        } else {
            bytes_text(b.take(i)) + ", "@ + nat_text(b[i] as nat)
        }),
{
    let t = b.take(i + 1);
    assert(t.subrange(0, t.len() - 1) =~= b.take(i));
    assert(t[i] == b[i]);
}

fn push_bytes(out: &mut String, b: &Vec<u8>)
    ensures
        final(out)@ == old(out)@ + bytes_text(b@),
{
    let ghost start = out@;
    let mut i: usize = 0;
    assert(b@.take(0) =~= Seq::<u8>::empty());
    assert(out@ =~= start + bytes_text(b@.take(0)));
    while i < b.len()
        invariant
            0 <= i <= b@.len(),
            out@ == start + bytes_text(b@.take(i as int)),
        decreases b@.len() - i,
    {
        proof {
            lemma_bytes_text_step(b@, i as int);
        }
        if i > 0 {
            out.append(", ");
        }
        push_nat(out, b[i] as u64);
        i = i + 1;
        assert(out@ =~= start + bytes_text(b@.take(i as int)));
    }
    assert(b@.take(b@.len() as int) =~= b@);
}

/// Appends the text that describes `v`.
pub fn push_value(out: &mut String, v: &Value)
    ensures
        final(out)@ == old(out)@ + value_text(v@),
    decreases v,
{
    match v {
        Value::Nil => {
            out.append("Nil");
        },
        Value::Boolean(b) => {
            out.append("Boolean(");
            out.append(
                if *b {
                    "true"
                } else {
                    "false"
                },
            );
            out.append(")");
        },
        Value::Uint8(x) => {
            out.append("Uint8(");
            push_nat(out, *x as u64);
            out.append(")");
        },
        Value::Uint16(x) => {
            out.append("Uint16(");
            push_nat(out, *x as u64);
            out.append(")");
        },
        Value::Uint32(x) => {
            out.append("Uint32(");
            push_nat(out, *x as u64);
            out.append(")");
        },
        Value::Uint64(x) => {
            out.append("Uint64(");
            push_nat(out, *x as u64);
            out.append(")");
        },
        Value::Int8(x) => {
            out.append("Int8(");
            push_int(out, *x as i64);
            out.append(")");
        },
        Value::Int16(x) => {
            out.append("Int16(");
            push_int(out, *x as i64);
            out.append(")");
        },
        Value::Int32(x) => {
            out.append("Int32(");
            push_int(out, *x as i64);
            out.append(")");
        },
        Value::Int64(x) => {
            out.append("Int64(");
            push_int(out, *x as i64);
            out.append(")");
        },
        Value::Float32(x) => {
            out.append("Float32(");
            push_nat(out, *x as u64);
            out.append(")");
        },
        Value::Float64(x) => {
            out.append("Float64(");
            push_nat(out, *x as u64);
            out.append(")");
        },
        Value::String(s) => {
            out.append("String(");
            let t = str_string(s.as_str());
            out.append(t.as_str());
            out.append(")");
        },
        Value::Binary(b) => {
            out.append("Binary([");
            push_bytes(out, b);
            out.append("])");
        },
        Value::Extended(t, d) => {
            out.append("Extended(");
            push_int(out, *t as i64);
            out.append(", [");
            push_bytes(out, d);
            out.append("])");
        },
        Value::Array(xs) => {
            proof {
                lemma_array_view(*xs);
            }
            let ghost vv = values_view(xs@);
            out.append("Array([");
            let ghost start = out@;
            let mut i: usize = 0;
            assert(vv.take(0) =~= Seq::<SpecValue>::empty());
            assert(out@ =~= start + values_text(vv.take(0)));
            while i < xs.len()
                invariant
                    *v == Value::Array(*xs),
                    vv == values_view(xs@),
                    0 <= i <= xs@.len(),
                    out@ == start + values_text(vv.take(i as int)),
                decreases xs@.len() - i,
            {
                proof {
                    lemma_values_text_step(vv, i as int);
                    assert((*v)->Array_0 == *xs);
                }
                if i > 0 {
                    out.append(", ");
                }
                push_value(out, &xs[i]);
                i = i + 1;
                assert(out@ =~= start + values_text(vv.take(i as int)));
            }
            assert(vv.take(xs@.len() as int) =~= vv);
            out.append("])");
        },
        Value::Mapping(m) => {
            proof {
                lemma_mapping_view(*m);
            }
            let ghost ev = m@;
            out.append("Map(ValueMap([");
            let ghost start = out@;
            let mut i: usize = 0;
            assert(ev.take(0) =~= Seq::<(SpecValue, SpecValue)>::empty());
            assert(out@ =~= start + entries_text(ev.take(0)));
            while i < m.0.len()
                invariant
                    *v == Value::Mapping(*m),
                    ev == m@,
                    0 <= i <= m.0@.len(),
                    out@ == start + entries_text(ev.take(i as int)),
                decreases m.0@.len() - i,
            {
                proof {
                    lemma_entries_text_step(ev, i as int);
                    assert((*v)->Mapping_0 == *m);
                }
                if i > 0 {
                    out.append(", ");
                }
                out.append("(");
                push_value(out, &m.0[i].0);
                out.append(", ");
                push_value(out, &m.0[i].1);
                out.append(")");
                i = i + 1;
                assert(out@ =~= start + entries_text(ev.take(i as int)));
            }
            assert(ev.take(m.0@.len() as int) =~= ev);
            out.append("]))");
        },
    }
    proof {
        assert(final(out)@ =~= old(out)@ + value_text(v@));
    }
}

} // verus!
