//! The values that MessagePack carries, their mathematical model, and the
//! accessors that take a value apart.
use vstd::prelude::*;
use crate::text::{push_value, value_text};
use vstd::string::StringExecFns;

verus! {

/// A value that can be sent by MessagePack.
///
/// Floating-point numbers are held as their IEEE-754 bit patterns: that is
/// exactly what travels on the wire.
#[derive(Debug)]
pub enum Value {
    Nil,
    Boolean(bool),
    Uint8(u8),
    Uint16(u16),
    Uint32(u32),
    Uint64(u64),
    Int8(i8),
    Int16(i16),
    Int32(i32),
    Int64(i64),
    /// A single-precision float, as its bit pattern.
    Float32(u32),
    /// A double-precision float, as its bit pattern.
    Float64(u64),
    String(String),
    Binary(Vec<u8>),
    Array(Vec<Value>),
    Mapping(ValueMap),
    Extended(i8, Vec<u8>),
}

/// The entries of a MessagePack map, in the order in which they were sent.
#[derive(Debug)]
pub struct ValueMap(pub Vec<(Value, Value)>);

/// The mathematical model of a [`Value`].
pub enum SpecValue {
    Nil,
    Boolean(bool),
    Uint8(u8),
    Uint16(u16),
    Uint32(u32),
    Uint64(u64),
    Int8(i8),
    Int16(i16),
    Int32(i32),
    Int64(i64),
    Float32(u32),
    Float64(u64),
    Str(Seq<char>),
    Binary(Seq<u8>),
    Array(Seq<SpecValue>),
    Mapping(Seq<(SpecValue, SpecValue)>),
    Extended(i8, Seq<u8>),
}

impl View for Value {
    type V = SpecValue;

    open spec fn view(&self) -> SpecValue
        decreases self,
    {
        match self {
            Value::Nil => SpecValue::Nil,
            Value::Boolean(b) => SpecValue::Boolean(*b),
            Value::Uint8(x) => SpecValue::Uint8(*x),
            Value::Uint16(x) => SpecValue::Uint16(*x),
            Value::Uint32(x) => SpecValue::Uint32(*x),
            Value::Uint64(x) => SpecValue::Uint64(*x),
            Value::Int8(x) => SpecValue::Int8(*x),
            Value::Int16(x) => SpecValue::Int16(*x),
            Value::Int32(x) => SpecValue::Int32(*x),
            Value::Int64(x) => SpecValue::Int64(*x),
            Value::Float32(x) => SpecValue::Float32(*x),
            Value::Float64(x) => SpecValue::Float64(*x),
            Value::String(s) => SpecValue::Str(s@),
            Value::Binary(b) => SpecValue::Binary(b@),
            Value::Array(vs) => SpecValue::Array(
                Seq::new(
                    vs@.len(),
                    |i: int|
                        if 0 <= i < vs@.len() {
                            vs@[i].view()
                        } else {
                            SpecValue::Nil
                        },
                ),
            ),
            Value::Mapping(m) => SpecValue::Mapping(
                Seq::new(
                    m.0@.len(),
                    |i: int|
                        if 0 <= i < m.0@.len() {
                            (m.0@[i].0.view(), m.0@[i].1.view())
                        } else {
                            (SpecValue::Nil, SpecValue::Nil)
                        },
                ),
            ),
            Value::Extended(t, d) => SpecValue::Extended(*t, d@),
        }
    }
}

impl View for ValueMap {
    type V = Seq<(SpecValue, SpecValue)>;

    open spec fn view(&self) -> Seq<(SpecValue, SpecValue)> {
        Seq::new(self.0@.len(), |i: int| (self.0@[i].0@, self.0@[i].1@))
    }
}

/// The model of a sequence of values.
pub open spec fn values_view(vs: Seq<Value>) -> Seq<SpecValue> {
    Seq::new(vs.len(), |i: int| vs[i]@)
}

pub proof fn lemma_array_view(vs: Vec<Value>)
    ensures
        Value::Array(vs)@ == SpecValue::Array(values_view(vs@)),
{
    reveal_with_fuel(<Value as View>::view, 2);
    let v = Value::Array(vs)@;
    assert(values_view(vs@) =~= v->Array_0);
}

pub proof fn lemma_mapping_view(m: ValueMap)
    ensures
        Value::Mapping(m)@ == SpecValue::Mapping(m@),
{
    reveal_with_fuel(<Value as View>::view, 2);
    let v = Value::Mapping(m)@;
    assert(m@ =~= v->Mapping_0);
}

/* -- Equality, as the wire format's numbers compare -- */

/// True when a single-precision bit pattern is a NaN.
pub open spec fn f32_is_nan(x: u32) -> bool {
    (x & 0x7f80_0000u32) == 0x7f80_0000u32 && (x & 0x007f_ffffu32) != 0
}

/// True when a double-precision bit pattern is a NaN.
pub open spec fn f64_is_nan(x: u64) -> bool {
    (x & 0x7ff0_0000_0000_0000u64) == 0x7ff0_0000_0000_0000u64 && (x & 0x000f_ffff_ffff_ffffu64)
        != 0
}

/// IEEE-754 equality of two single-precision bit patterns: NaN equals
/// nothing, and the two zeros are equal.
pub open spec fn f32_equal(x: u32, y: u32) -> bool {
    &&& !f32_is_nan(x)
    &&& !f32_is_nan(y)
    &&& (x == y || ((x & 0x7fff_ffffu32) == 0 && (y & 0x7fff_ffffu32) == 0))
}

/// IEEE-754 equality of two double-precision bit patterns.
pub open spec fn f64_equal(x: u64, y: u64) -> bool {
    &&& !f64_is_nan(x)
    &&& !f64_is_nan(y)
    &&& (x == y || ((x & 0x7fff_ffff_ffff_ffffu64) == 0 && (y & 0x7fff_ffff_ffff_ffffu64) == 0))
}

/// When two values are equal: variant by variant, element by element, with
/// floats compared as IEEE-754 numbers.
pub open spec fn same_value(a: SpecValue, b: SpecValue) -> bool
    decreases a,
{
    match a {
        SpecValue::Float32(x) => b matches SpecValue::Float32(y) && f32_equal(x, y),
        SpecValue::Float64(x) => b matches SpecValue::Float64(y) && f64_equal(x, y),
        SpecValue::Array(xs) => b matches SpecValue::Array(ys) && same_values(xs, ys),
        SpecValue::Mapping(xs) => b matches SpecValue::Mapping(ys) && same_entries(xs, ys),
        _ => a == b,
    }
}

/// Element-wise [`same_value`] of two sequences of the same length.
pub open spec fn same_values(xs: Seq<SpecValue>, ys: Seq<SpecValue>) -> bool
    decreases xs,
{
    if xs.len() == 0 {
        ys.len() == 0
    } else {
        &&& ys.len() > 0
        &&& same_value(xs[0], ys[0])
        &&& same_values(xs.subrange(1, xs.len() as int), ys.subrange(1, ys.len() as int))
    }
}

/// Entry-wise [`same_value`] of two sequences of map entries.
pub open spec fn same_entries(
    xs: Seq<(SpecValue, SpecValue)>,
    ys: Seq<(SpecValue, SpecValue)>,
) -> bool
    decreases xs,
{
    if xs.len() == 0 {
        ys.len() == 0
    } else {
        &&& ys.len() > 0
        &&& same_value(xs[0].0, ys[0].0)
        &&& same_value(xs[0].1, ys[0].1)
        &&& same_entries(xs.subrange(1, xs.len() as int), ys.subrange(1, ys.len() as int))
    }
}

pub proof fn lemma_same_values(xs: Seq<SpecValue>, ys: Seq<SpecValue>)
    ensures
        same_values(xs, ys) <==> (xs.len() == ys.len() && forall|i: int|
            0 <= i < xs.len() ==> #[trigger] same_value(xs[i], ys[i])),
    decreases xs.len(),
{
    if xs.len() > 0 && ys.len() > 0 {
        let (xt, yt) = (xs.subrange(1, xs.len() as int), ys.subrange(1, ys.len() as int));
        lemma_same_values(xt, yt);
        assert(same_values(xs, ys) == (same_value(xs[0], ys[0]) && same_values(xt, yt)));
        if xs.len() == ys.len() && forall|i: int|
            0 <= i < xs.len() ==> #[trigger] same_value(xs[i], ys[i]) {
            assert forall|i: int| 0 <= i < xt.len() implies #[trigger] same_value(xt[i], yt[i]) by {
                assert(same_value(xs[i + 1], ys[i + 1]));
            }
        }
        if same_values(xs, ys) {
            assert forall|i: int| 0 <= i < xs.len() implies #[trigger] same_value(xs[i], ys[i]) by {
                if i > 0 {
                    assert(same_value(xt[i - 1], yt[i - 1]));
                }
            }
        }
    }
}

pub proof fn lemma_same_entries(xs: Seq<(SpecValue, SpecValue)>, ys: Seq<(SpecValue, SpecValue)>)
    ensures
        same_entries(xs, ys) <==> (xs.len() == ys.len() && forall|i: int|
            0 <= i < xs.len() ==> #[trigger] same_value(xs[i].0, ys[i].0) && same_value(
                xs[i].1,
                ys[i].1,
            )),
    decreases xs.len(),
{
    if xs.len() > 0 && ys.len() > 0 {
        let (xt, yt) = (xs.subrange(1, xs.len() as int), ys.subrange(1, ys.len() as int));
        lemma_same_entries(xt, yt);
        assert(same_entries(xs, ys) == (same_value(xs[0].0, ys[0].0) && same_value(xs[0].1, ys[0].1)
            && same_entries(xt, yt)));
        if xs.len() == ys.len() && forall|i: int|
            0 <= i < xs.len() ==> #[trigger] same_value(xs[i].0, ys[i].0) && same_value(
                xs[i].1,
                ys[i].1,
            ) {
            assert forall|i: int| 0 <= i < xt.len() implies #[trigger] same_value(
                xt[i].0,
                yt[i].0,
            ) && same_value(xt[i].1, yt[i].1) by {
                assert(same_value(xs[i + 1].0, ys[i + 1].0));
            }
        }
        if same_entries(xs, ys) {
            assert forall|i: int| 0 <= i < xs.len() implies #[trigger] same_value(
                xs[i].0,
                ys[i].0,
            ) && same_value(xs[i].1, ys[i].1) by {
                if i > 0 {
                    assert(same_value(xt[i - 1].0, yt[i - 1].0));
                }
            }
        }
    }
}

fn f32_equal_exec(x: u32, y: u32) -> (r: bool)
    ensures
        r == f32_equal(x, y),
{
    let x_nan = (x & 0x7f80_0000u32) == 0x7f80_0000u32 && (x & 0x007f_ffffu32) != 0;
    let y_nan = (y & 0x7f80_0000u32) == 0x7f80_0000u32 && (y & 0x007f_ffffu32) != 0;
    !x_nan && !y_nan && (x == y || ((x & 0x7fff_ffffu32) == 0 && (y & 0x7fff_ffffu32) == 0))
}

fn f64_equal_exec(x: u64, y: u64) -> (r: bool)
    ensures
        r == f64_equal(x, y),
{
    let x_nan = (x & 0x7ff0_0000_0000_0000u64) == 0x7ff0_0000_0000_0000u64 && (x
        & 0x000f_ffff_ffff_ffffu64) != 0;
    let y_nan = (y & 0x7ff0_0000_0000_0000u64) == 0x7ff0_0000_0000_0000u64 && (y
        & 0x000f_ffff_ffff_ffffu64) != 0;
    !x_nan && !y_nan && (x == y || ((x & 0x7fff_ffff_ffff_ffffu64) == 0 && (y
        & 0x7fff_ffff_ffff_ffffu64) == 0))
}

pub fn bytes_equal(a: &Vec<u8>, b: &Vec<u8>) -> (r: bool)
    ensures
        r == (a@ == b@),
{
    if a.len() != b.len() {
        return false;
    }
    let mut i: usize = 0;
    while i < a.len()
        invariant
            a@.len() == b@.len(),
            0 <= i <= a@.len(),
            forall|j: int| 0 <= j < i ==> a@[j] == b@[j],
        decreases a@.len() - i,
    {
        if a[i] != b[i] {
            return false;
        }
        i = i + 1;
    }
    assert(a@ =~= b@);
    true
}

/// Compares two values as the wire format's `==` does.
pub fn values_equal(a: &Value, b: &Value) -> (r: bool)
    ensures
        r == same_value(a@, b@),
    decreases a,
{
    match a {
        Value::Array(xs) => {
            proof {
                lemma_array_view(*xs);
            }
            let ys = match b {
                Value::Array(ys) => ys,
                _ => {
                    return false;
                },
            };
            proof {
                lemma_array_view(*ys);
            }
            if xs.len() != ys.len() {
                proof {
                    lemma_same_values(values_view(xs@), values_view(ys@));
                }
                return false;
            }
            let mut i: usize = 0;
            while i < xs.len()
                invariant
                    *a == Value::Array(*xs),
                    xs@.len() == ys@.len(),
                    0 <= i <= xs@.len(),
                    a@ == SpecValue::Array(values_view(xs@)),
                    b@ == SpecValue::Array(values_view(ys@)),
                    forall|j: int|
                        0 <= j < i ==> #[trigger] same_value(
                            values_view(xs@)[j],
                            values_view(ys@)[j],
                        ),
                decreases xs@.len() - i,
            {
                if !values_equal(&xs[i], &ys[i]) {
                    proof {
                        let (va, vb) = (values_view(xs@), values_view(ys@));
                        assert(!same_value(va[i as int], vb[i as int]));
                        lemma_same_values(va, vb);
                    }
                    return false;
                }
                assert(same_value(values_view(xs@)[i as int], values_view(ys@)[i as int]));
                i = i + 1;
            }
            proof {
                lemma_same_values(values_view(xs@), values_view(ys@));
            }
            true
        },
        Value::Mapping(xs) => {
            proof {
                lemma_mapping_view(*xs);
            }
            match b {
                Value::Mapping(ys) => {
                    proof {
                        lemma_mapping_view(*ys);
                    }
                    entries_equal(xs, ys)
                },
                _ => false,
            }
        },
        _ => match (a, b) {
            (Value::Nil, Value::Nil) => true,
            (Value::Boolean(x), Value::Boolean(y)) => *x == *y,
            (Value::Uint8(x), Value::Uint8(y)) => *x == *y,
            (Value::Uint16(x), Value::Uint16(y)) => *x == *y,
            (Value::Uint32(x), Value::Uint32(y)) => *x == *y,
            (Value::Uint64(x), Value::Uint64(y)) => *x == *y,
            (Value::Int8(x), Value::Int8(y)) => *x == *y,
            (Value::Int16(x), Value::Int16(y)) => *x == *y,
            (Value::Int32(x), Value::Int32(y)) => *x == *y,
            (Value::Int64(x), Value::Int64(y)) => *x == *y,
            (Value::Float32(x), Value::Float32(y)) => f32_equal_exec(*x, *y),
            (Value::Float64(x), Value::Float64(y)) => f64_equal_exec(*x, *y),
            (Value::String(x), Value::String(y)) => *x == *y,
            (Value::Binary(x), Value::Binary(y)) => bytes_equal(x, y),
            (Value::Extended(t, x), Value::Extended(u, y)) => *t == *u && bytes_equal(x, y),
            _ => false,
        },
    }
}

/// Compares map entries as the wire format's `==` does.
pub fn entries_equal(xs: &ValueMap, ys: &ValueMap) -> (r: bool)
    ensures
        r == same_entries(xs@, ys@),
    decreases xs,
{
    if xs.0.len() != ys.0.len() {
        proof {
            lemma_same_entries(xs@, ys@);
        }
        return false;
    }
    let mut i: usize = 0;
    while i < xs.0.len()
        invariant
            xs.0@.len() == ys.0@.len(),
            0 <= i <= xs.0@.len(),
            forall|j: int|
                0 <= j < i ==> #[trigger] same_value(xs@[j].0, ys@[j].0) && same_value(
                    xs@[j].1,
                    ys@[j].1,
                ),
        decreases xs.0@.len() - i,
    {
        if !values_equal(&xs.0[i].0, &ys.0[i].0) {
            proof {
                assert(!same_value(xs@[i as int].0, ys@[i as int].0));
                lemma_same_entries(xs@, ys@);
            }
            return false;
        }
        assert(same_value(xs@[i as int].0, ys@[i as int].0));
        if !values_equal(&xs.0[i].1, &ys.0[i].1) {
            proof {
                assert(!same_value(xs@[i as int].1, ys@[i as int].1));
                lemma_same_entries(xs@, ys@);
            }
            return false;
        }
        assert(same_value(xs@[i as int].1, ys@[i as int].1));
        i = i + 1;
    }
    proof {
        lemma_same_entries(xs@, ys@);
    }
    true
}

impl PartialEq for Value {
    fn eq(&self, other: &Self) -> (r: bool) {
        values_equal(self, other)
    }
}

impl vstd::std_specs::cmp::PartialEqSpecImpl for Value {
    open spec fn obeys_eq_spec() -> bool {
        true
    }

    open spec fn eq_spec(&self, other: &Self) -> bool {
        same_value(self@, other@)
    }
}

impl PartialEq for ValueMap {
    fn eq(&self, other: &Self) -> (r: bool) {
        entries_equal(self, other)
    }
}

impl vstd::std_specs::cmp::PartialEqSpecImpl for ValueMap {
    open spec fn obeys_eq_spec() -> bool {
        true
    }

    open spec fn eq_spec(&self, other: &Self) -> bool {
        same_entries(self@, other@)
    }
}

/* -- Copies -- */

pub fn copy_bytes(b: &Vec<u8>) -> (r: Vec<u8>)
    ensures
        r@ == b@,
{
    let mut r: Vec<u8> = Vec::new();
    let mut i: usize = 0;
    while i < b.len()
        invariant
            0 <= i <= b@.len(),
            r@ == b@.take(i as int),
        decreases b@.len() - i,
    {
        r.push(b[i]);
        i = i + 1;
        assert(r@ =~= b@.take(i as int));
    }
    assert(b@.take(b@.len() as int) =~= b@);
    r
}

/// A deep copy of a value.
pub fn clone_value(v: &Value) -> (r: Value)
    ensures
        r@ == v@,
    decreases v,
{
    match v {
        Value::Nil => Value::Nil,
        Value::Boolean(b) => Value::Boolean(*b),
        Value::Uint8(x) => Value::Uint8(*x),
        Value::Uint16(x) => Value::Uint16(*x),
        Value::Uint32(x) => Value::Uint32(*x),
        Value::Uint64(x) => Value::Uint64(*x),
        Value::Int8(x) => Value::Int8(*x),
        Value::Int16(x) => Value::Int16(*x),
        Value::Int32(x) => Value::Int32(*x),
        Value::Int64(x) => Value::Int64(*x),
        Value::Float32(x) => Value::Float32(*x),
        Value::Float64(x) => Value::Float64(*x),
        Value::String(s) => Value::String(s.clone()),
        Value::Binary(b) => Value::Binary(copy_bytes(b)),
        Value::Extended(t, d) => Value::Extended(*t, copy_bytes(d)),
        Value::Array(xs) => {
            proof {
                lemma_array_view(*xs);
            }
            let mut out: Vec<Value> = Vec::new();
            let mut i: usize = 0;
            while i < xs.len()
                invariant
                    *v == Value::Array(*xs),
                    0 <= i <= xs@.len(),
                    values_view(out@) == values_view(xs@).take(i as int),
                decreases xs@.len() - i,
            {
                let x = &xs[i];
                proof {
                    assert((*v)->Array_0 == *xs);
                }
                let c = clone_value(x);
                let ghost before = values_view(out@);
                out.push(c);
                i = i + 1;
                assert(values_view(out@) =~= values_view(xs@).take(i as int)) by {
                    assert(values_view(out@) =~= before.push(c@));
                }
            }
            proof {
                assert(values_view(xs@).take(xs@.len() as int) =~= values_view(xs@));
                lemma_array_view(out);
            }
            Value::Array(out)
        },
        Value::Mapping(m) => {
            proof {
                lemma_mapping_view(*m);
            }
            let c = clone_entries(m);
            proof {
                lemma_mapping_view(c);
            }
            Value::Mapping(c)
        },
    }
}

/// A deep copy of map entries.
fn clone_entries(m: &ValueMap) -> (r: ValueMap)
    ensures
        r@ == m@,
    decreases m,
{
    let mut out: Vec<(Value, Value)> = Vec::new();
    let mut i: usize = 0;
    while i < m.0.len()
        invariant
            0 <= i <= m.0@.len(),
            ValueMap(out)@ == m@.take(i as int),
        decreases m.0@.len() - i,
    {
        let k = clone_value(&m.0[i].0);
        let x = clone_value(&m.0[i].1);
        let ghost before = ValueMap(out)@;
        out.push((k, x));
        i = i + 1;
        assert(ValueMap(out)@ =~= m@.take(i as int)) by {
            assert(ValueMap(out)@ =~= before.push((k@, x@)));
        }
    }
    assert(m@.take(m.0@.len() as int) =~= m@);
    ValueMap(out)
}

impl Clone for Value {
    fn clone(&self) -> (r: Self)
        ensures
            r@ == self@,
    {
        clone_value(self)
    }
}

impl Clone for ValueMap {
    fn clone(&self) -> (r: Self)
        ensures
            r@ == self@,
    {
        clone_entries(self)
    }
}

/* -- Taking a value apart -- */

/// The error of asking a value for a kind of content that it does not hold.
/// It gives the value back.
#[derive(Debug)]
pub struct TypeError {
    v: Value,
    desc: String,
}

impl TypeError {
    /// The value that caused the error.
    pub closed spec fn held(&self) -> SpecValue {
        self.v@
    }

    /// The description of the error.
    pub closed spec fn message(&self) -> Seq<char> {
        self.desc@
    }

    /// The error for `v`, which does not contain `what` (such as "a float
    /// value").
    pub fn new(v: Value, what: &str) -> (e: TypeError)
        ensures
            e.held() == v@,
            e.message() == value_text(v@) + " does not contain "@ + what@,
    {
        let mut desc = String::new();
        push_value(&mut desc, &v);
        desc.append(" does not contain ");
        desc.append(what);
        TypeError { v, desc }
    }

    /// Retrieve the value that caused the type error.
    pub fn value(self) -> (r: Value)
        ensures
            r@ == self.held(),
    {
        self.v
    }

    /// The description of the error.
    pub fn description(&self) -> (r: &str)
        ensures
            r@ == self.message(),
    {
        self.desc.as_str()
    }
}

/// The outcome of asking for content that a value does not hold: the value
/// comes back inside the error, whose description is the text that
/// describes the value followed by " does not contain " and `what`.
pub open spec fn refused<T>(r: Result<T, TypeError>, v: SpecValue, what: Seq<char>) -> bool {
    r matches Err(e) && e.held() == v && e.message() == value_text(v) + " does not contain "@
        + what
}

impl Value {
    pub fn is_nil(&self) -> (r: bool)
        ensures
            r == (self@ is Nil),
    {
        match *self {
            Value::Nil => true,
            _ => false,
        }
    }

    pub fn bool(self) -> (r: Result<bool, TypeError>)
        ensures
            match self@ {
                SpecValue::Boolean(b) => r == Ok::<bool, TypeError>(b),
                _ => refused(r, self@, "a boolean value"@),
            },
    {
        match self {
            Value::Boolean(b) => Ok(b),
            v => Err(TypeError::new(v, "a boolean value")),
        }
    }

    pub fn sint(self) -> (r: Result<i64, TypeError>)
        ensures
            match self@ {
                SpecValue::Int8(i) => r == Ok::<i64, TypeError>(i as i64),
                SpecValue::Int16(i) => r == Ok::<i64, TypeError>(i as i64),
                SpecValue::Int32(i) => r == Ok::<i64, TypeError>(i as i64),
                SpecValue::Int64(i) => r == Ok::<i64, TypeError>(i),
                _ => refused(r, self@, "an int value"@),
            },
    {
        match self {
            Value::Int8(i) => Ok(i as i64),
            Value::Int16(i) => Ok(i as i64),
            Value::Int32(i) => Ok(i as i64),
            Value::Int64(i) => Ok(i),
            v => Err(TypeError::new(v, "an int value")),
        }
    }

    pub fn uint(self) -> (r: Result<u64, TypeError>)
        ensures
            match self@ {
                SpecValue::Uint8(i) => r == Ok::<u64, TypeError>(i as u64),
                SpecValue::Uint16(i) => r == Ok::<u64, TypeError>(i as u64),
                SpecValue::Uint32(i) => r == Ok::<u64, TypeError>(i as u64),
                SpecValue::Uint64(i) => r == Ok::<u64, TypeError>(i),
                _ => refused(r, self@, "a uint value"@),
            },
    {
        match self {
            Value::Uint8(i) => Ok(i as u64),
            Value::Uint16(i) => Ok(i as u64),
            Value::Uint32(i) => Ok(i as u64),
            Value::Uint64(i) => Ok(i),
            v => Err(TypeError::new(v, "a uint value")),
        }
    }

    pub fn string(self) -> (r: Result<String, TypeError>)
        ensures
            match self@ {
                SpecValue::Str(cs) => r matches Ok(s) && s@ == cs,
                _ => refused(r, self@, "a string value"@),
            },
    {
        match self {
            Value::String(s) => Ok(s),
            v => Err(TypeError::new(v, "a string value")),
        }
    }

    pub fn binary(self) -> (r: Result<Vec<u8>, TypeError>)
        ensures
            match self@ {
                SpecValue::Binary(b) => r matches Ok(d) && d@ == b,
                _ => refused(r, self@, "a binary value"@),
            },
    {
        match self {
            Value::Binary(data) => Ok(data),
            v => Err(TypeError::new(v, "a binary value")),
        }
    }

    pub fn array(self) -> (r: Result<Vec<Value>, TypeError>)
        ensures
            match self@ {
                SpecValue::Array(xs) => r matches Ok(vs) && values_view(vs@) == xs,
                _ => refused(r, self@, "an array value"@),
            },
    {
        match self {
            Value::Array(ar) => {
                proof {
                    lemma_array_view(ar);
                }
                Ok(ar)
            },
            v => Err(TypeError::new(v, "an array value")),
        }
    }

    pub fn map(self) -> (r: Result<ValueMap, TypeError>)
        ensures
            match self@ {
                SpecValue::Mapping(es) => r matches Ok(m) && m@ == es,
                _ => refused(r, self@, "a map value"@),
            },
    {
        match self {
            Value::Mapping(m) => {
                proof {
                    lemma_mapping_view(m);
                }
                Ok(m)
            },
            v => Err(TypeError::new(v, "a map value")),
        }
    }

    pub fn extended_type(&self) -> (r: Option<i8>)
        ensures
            match self@ {
                SpecValue::Extended(t, _) => r == Some(t),
                _ => r is None,
            },
    {
        match *self {
            Value::Extended(x, _) => Some(x),
            _ => None,
        }
    }

    pub fn extended_data(self) -> (r: Option<Vec<u8>>)
        ensures
            match self@ {
                SpecValue::Extended(_, d) => r matches Some(data) && data@ == d,
                _ => r is None,
            },
    {
        match self {
            Value::Extended(_, data) => Some(data),
            _ => None,
        }
    }
}

/* -- Conversions into values -- */

/// A trait for types that can be written via MessagePack: each converts to
/// the value that [`IntoValue::as_value`] names.
pub trait IntoValue: Sized {
    /// The value that `self` converts to.
    spec fn as_value(self) -> SpecValue;

    fn into_value(self) -> (r: Value)
        ensures
            r@ == self.as_value(),
    ;
}

impl IntoValue for () {
    open spec fn as_value(self) -> SpecValue {
        SpecValue::Nil
    }

    fn into_value(self) -> (r: Value)
        ensures
            r@ == SpecValue::Nil,
    {
        Value::Nil
    }
}

impl IntoValue for bool {
    open spec fn as_value(self) -> SpecValue {
        SpecValue::Boolean(self)
    }

    fn into_value(self) -> (r: Value)
        ensures
            r@ == SpecValue::Boolean(self),
    {
        Value::Boolean(self)
    }
}

impl IntoValue for u8 {
    open spec fn as_value(self) -> SpecValue {
        SpecValue::Uint8(self)
    }

    fn into_value(self) -> (r: Value)
        ensures
            r@ == SpecValue::Uint8(self),
    {
        Value::Uint8(self)
    }
}

impl IntoValue for u16 {
    open spec fn as_value(self) -> SpecValue {
        SpecValue::Uint16(self)
    }

    fn into_value(self) -> (r: Value)
        ensures
            r@ == SpecValue::Uint16(self),
    {
        Value::Uint16(self)
    }
}

impl IntoValue for u32 {
    open spec fn as_value(self) -> SpecValue {
        SpecValue::Uint32(self)
    }

    fn into_value(self) -> (r: Value)
        ensures
            r@ == SpecValue::Uint32(self),
    {
        Value::Uint32(self)
    }
}

impl IntoValue for u64 {
    open spec fn as_value(self) -> SpecValue {
        SpecValue::Uint64(self)
    }

    fn into_value(self) -> (r: Value)
        ensures
            r@ == SpecValue::Uint64(self),
    {
        Value::Uint64(self)
    }
}

impl IntoValue for i8 {
    open spec fn as_value(self) -> SpecValue {
        SpecValue::Int8(self)
    }

    fn into_value(self) -> (r: Value)
        ensures
            r@ == SpecValue::Int8(self),
    {
        Value::Int8(self)
    }
}

impl IntoValue for i16 {
    open spec fn as_value(self) -> SpecValue {
        SpecValue::Int16(self)
    }

    fn into_value(self) -> (r: Value)
        ensures
            r@ == SpecValue::Int16(self),
    {
        Value::Int16(self)
    }
}

impl IntoValue for i32 {
    open spec fn as_value(self) -> SpecValue {
        SpecValue::Int32(self)
    }

    fn into_value(self) -> (r: Value)
        ensures
            r@ == SpecValue::Int32(self),
    {
        Value::Int32(self)
    }
}

impl IntoValue for i64 {
    open spec fn as_value(self) -> SpecValue {
        SpecValue::Int64(self)
    }

    fn into_value(self) -> (r: Value)
        ensures
            r@ == SpecValue::Int64(self),
    {
        Value::Int64(self)
    }
}

impl IntoValue for String {
    open spec fn as_value(self) -> SpecValue {
        SpecValue::Str(self@)
    }

    fn into_value(self) -> (r: Value)
        ensures
            r@ == SpecValue::Str(self@),
    {
        Value::String(self)
    }
}

impl IntoValue for &'static str {
    open spec fn as_value(self) -> SpecValue {
        SpecValue::Str(self@)
    }

    fn into_value(self) -> (r: Value)
        ensures
            r@ == SpecValue::Str(self@),
    {
        Value::String(self.to_owned())
    }
}

impl<T: IntoValue> IntoValue for Vec<T> {
    open spec fn as_value(self) -> SpecValue {
        SpecValue::Array(Seq::new(self@.len(), |i: int| self@[i].as_value()))
    }

    fn into_value(self) -> (r: Value)
        ensures
            r@ matches SpecValue::Array(xs) && xs.len() == self@.len() && forall|i: int|
                0 <= i < xs.len() ==> #[trigger] xs[i] == self@[i].as_value(),
    {
        let ghost items = self@;
        let mut rest = self;
        // Take the items from the back, then put the values back in order.
        let mut backwards: Vec<Value> = Vec::new();
        while rest.len() > 0
            invariant
                rest@.len() + backwards@.len() == items.len(),
                rest@ == items.take(rest@.len() as int),
                forall|j: int|
                    0 <= j < backwards@.len() ==> #[trigger] backwards@[j]@ == items[items.len()
                        - 1 - j].as_value(),
            decreases rest@.len(),
        {
            let ghost n = rest@.len();
            let item = rest.pop().unwrap();
            assert(item == items[n - 1]);
            let v = item.into_value();
            backwards.push(v);
            assert(rest@ =~= items.take(rest@.len() as int));
        }
        let mut out: Vec<Value> = Vec::new();
        while backwards.len() > 0
            invariant
                out@.len() + backwards@.len() == items.len(),
                forall|j: int|
                    0 <= j < backwards@.len() ==> #[trigger] backwards@[j]@ == items[items.len()
                        - 1 - j].as_value(),
                forall|j: int| 0 <= j < out@.len() ==> #[trigger] out@[j]@ == items[j].as_value(),
            decreases backwards@.len(),
        {
            let ghost n = backwards@.len();
            let v = backwards.pop().unwrap();
            assert(v@ == items[items.len() - 1 - (n - 1)].as_value());
            out.push(v);
        }
        proof {
            lemma_array_view(out);
            assert(values_view(out@) =~= Seq::new(items.len(), |i: int| items[i].as_value()));
        }
        Value::Array(out)
    }
}

/* -- Looking up map entries -- */

/// The value of the first entry whose key equals `k`.
pub open spec fn lookup(es: Seq<(SpecValue, SpecValue)>, k: SpecValue) -> Option<SpecValue>
    decreases es.len(),
{
    if es.len() == 0 {
        None
    } else if same_value(es[0].0, k) {
        Some(es[0].1)
    } else {
        lookup(es.subrange(1, es.len() as int), k)
    }
}

impl ValueMap {
    /// Retrieve a value from the map: that of the first entry whose key
    /// equals `key`.
    pub fn get<T: IntoValue>(&self, key: T) -> (r: Option<&Value>)
        ensures
            r is Some <==> lookup(self@, key.as_value()) is Some,
            r matches Some(x) ==> lookup(self@, key.as_value()) == Some(x@),
    {
        let ghost k = key.as_value();
        let wanted = key.into_value();
        let mut i: usize = 0;
        proof {
            assert(self@.skip(0) =~= self@);
        }
        while i < self.0.len()
            invariant
                0 <= i <= self.0@.len(),
                wanted@ == k,
                k == key.as_value(),
                lookup(self@, wanted@) == lookup(self@.skip(i as int), wanted@),
            decreases self.0@.len() - i,
        {
            proof {
                let rest = self@.skip(i as int);
                assert(rest.subrange(1, rest.len() as int) =~= self@.skip(i + 1));
                assert(rest[0] == self@[i as int]);
            }
            let found = values_equal(&self.0[i].0, &wanted);
            if found {
                let entry = &self.0[i];
                proof {
                    let rest = self@.skip(i as int);
                    assert(*entry == self.0@[i as int]);
                    assert(rest[0] == (entry.0@, entry.1@));
                    assert(same_value(rest[0].0, wanted@));
                    assert(lookup(rest, wanted@) == Some(rest[0].1));
                    assert(lookup(self@, k) == Some(entry.1@));
                }
                return Some(&entry.1);
            }
            i = i + 1;
        }
        None
    }

    /// The array stored under `key`.
    pub fn get_array<T: IntoValue>(&self, key: T) -> (r: Option<Vec<Value>>)
        requires
            lookup(self@, key.as_value()) matches Some(v) ==> v is Array,
        ensures
            match lookup(self@, key.as_value()) {
                Some(v) => r matches Some(vs) && SpecValue::Array(values_view(vs@)) == v,
                None => r is None,
            },
    {
        match self.get(key) {
            Some(v) => match clone_value(v).array() {
                Ok(vs) => Some(vs),
                Err(_) => None,
            },
            None => None,
        }
    }

    /// The boolean stored under `key`.
    pub fn get_bool<T: IntoValue>(&self, key: T) -> (r: Option<bool>)
        requires
            lookup(self@, key.as_value()) matches Some(v) ==> v is Boolean,
        ensures
            match lookup(self@, key.as_value()) {
                Some(v) => r matches Some(b) && SpecValue::Boolean(b) == v,
                None => r is None,
            },
    {
        match self.get(key) {
            Some(v) => match clone_value(v).bool() {
                Ok(b) => Some(b),
                Err(_) => None,
            },
            None => None,
        }
    }

    /// The string stored under `key`.
    pub fn get_string<T: IntoValue>(&self, key: T) -> (r: Option<String>)
        requires
            lookup(self@, key.as_value()) matches Some(v) ==> v is Str,
        ensures
            match lookup(self@, key.as_value()) {
                Some(v) => r matches Some(s) && SpecValue::Str(s@) == v,
                None => r is None,
            },
    {
        match self.get(key) {
            Some(v) => match clone_value(v).string() {
                Ok(s) => Some(s),
                Err(_) => None,
            },
            None => None,
        }
    }

    /// Returns the number of key/value pairs in the map.
    pub fn len(&self) -> (r: usize)
        ensures
            r == self@.len(),
    {
        self.0.len()
    }
}

/* -- Laws -- */

/// Each Rust value converts to the MessagePack value of its own kind that
/// holds the same number, flag or text: nothing is narrowed or widened.
pub proof fn law_into_value_keeps_kind_and_content(
    b: bool,
    u8v: u8,
    u16v: u16,
    u32v: u32,
    u64v: u64,
    i8v: i8,
    i16v: i16,
    i32v: i32,
    i64v: i64,
    s: String,
    t: &'static str,
)
    ensures
        ().as_value() == SpecValue::Nil,
        b.as_value() == SpecValue::Boolean(b),
        u8v.as_value() == SpecValue::Uint8(u8v),
        u16v.as_value() == SpecValue::Uint16(u16v),
        u32v.as_value() == SpecValue::Uint32(u32v),
        u64v.as_value() == SpecValue::Uint64(u64v),
        i8v.as_value() == SpecValue::Int8(i8v),
        i16v.as_value() == SpecValue::Int16(i16v),
        i32v.as_value() == SpecValue::Int32(i32v),
        i64v.as_value() == SpecValue::Int64(i64v),
        s.as_value() == SpecValue::Str(s@),
        t.as_value() == SpecValue::Str(t@),
{
}

/// A vector converts to an array of the same length whose items are what
/// its items convert to, in order.
pub proof fn law_into_value_of_vec<T: IntoValue>(items: Vec<T>)
    ensures
        items.as_value() matches SpecValue::Array(xs) && xs.len() == items@.len() && forall|i: int|
            0 <= i < xs.len() ==> #[trigger] xs[i] == items@[i].as_value(),
{
}

/// Whether a value holds no float, at any depth.
pub open spec fn float_free(v: SpecValue) -> bool
    decreases v,
{
    match v {
        SpecValue::Float32(_) => false,
        SpecValue::Float64(_) => false,
        SpecValue::Array(xs) => all_float_free(xs),
        SpecValue::Mapping(es) => entries_float_free(es),
        _ => true,
    }
}

/// Whether no value of `xs` holds a float.
pub open spec fn all_float_free(xs: Seq<SpecValue>) -> bool
    decreases xs,
{
    if xs.len() == 0 {
        true
    } else {
        float_free(xs[0]) && all_float_free(xs.subrange(1, xs.len() as int))
    }
}

/// Whether no key or value of `es` holds a float.
pub open spec fn entries_float_free(es: Seq<(SpecValue, SpecValue)>) -> bool
    decreases es,
{
    if es.len() == 0 {
        true
    } else {
        float_free(es[0].0) && float_free(es[0].1) && entries_float_free(
            es.subrange(1, es.len() as int),
        )
    }
}

/// Where no float is involved, `==` on values is plain equality: two values
/// are equal exactly when they are the same value, with every number,
/// character, byte, element and entry the same.
pub proof fn law_equal_without_floats(a: SpecValue, b: SpecValue)
    requires
        float_free(a),
    ensures
        same_value(a, b) <==> a == b,
    decreases a,
{
    match a {
        SpecValue::Array(xs) => {
            match b {
                SpecValue::Array(ys) => {
                    lemma_equal_values(xs, ys);
                },
                _ => {},
            }
        },
        SpecValue::Mapping(es) => {
            match b {
                SpecValue::Mapping(fs) => {
                    lemma_equal_entries(es, fs);
                },
                _ => {},
            }
        },
        _ => {},
    }
}

proof fn lemma_equal_values(xs: Seq<SpecValue>, ys: Seq<SpecValue>)
    requires
        all_float_free(xs),
    ensures
        same_values(xs, ys) <==> xs == ys,
    decreases xs,
{
    if xs.len() == 0 {
        if ys.len() == 0 {
            assert(xs =~= ys);
        }
    } else if ys.len() > 0 {
        let xt = xs.subrange(1, xs.len() as int);
        let yt = ys.subrange(1, ys.len() as int);
        law_equal_without_floats(xs[0], ys[0]);
        lemma_equal_values(xt, yt);
        if same_values(xs, ys) {
            assert forall|i: int| 0 <= i < xs.len() implies xs[i] == ys[i] by {
                if i > 0 {
                    assert(xt[i - 1] == yt[i - 1]);
                }
            }
            assert(xs =~= ys);
        }
        if xs == ys {
            assert(xt =~= yt);
        }
    }
}

proof fn lemma_equal_entries(es: Seq<(SpecValue, SpecValue)>, fs: Seq<(SpecValue, SpecValue)>)
    requires
        entries_float_free(es),
    ensures
        same_entries(es, fs) <==> es == fs,
    decreases es,
{
    if es.len() == 0 {
        if fs.len() == 0 {
            assert(es =~= fs);
        }
    } else if fs.len() > 0 {
        let et = es.subrange(1, es.len() as int);
        let ft = fs.subrange(1, fs.len() as int);
        law_equal_without_floats(es[0].0, fs[0].0);
        law_equal_without_floats(es[0].1, fs[0].1);
        lemma_equal_entries(et, ft);
        if same_entries(es, fs) {
            assert forall|i: int| 0 <= i < es.len() implies es[i] == fs[i] by {
                if i > 0 {
                    assert(et[i - 1] == ft[i - 1]);
                }
            }
            assert(es =~= fs);
        }
        if es == fs {
            assert(et =~= ft);
        }
    }
}

/// Floats compare as IEEE-754 numbers: a single-precision value equals
/// another exactly when both are the same bit pattern and not a NaN (all
/// exponent bits set and a nonzero fraction), or both are zeros of either
/// sign; the same holds of double precision with its own widths.
pub proof fn law_float_equality(x: u32, y: u32, p: u64, q: u64)
    ensures
        same_value(SpecValue::Float32(x), SpecValue::Float32(y)) <==> ((x == y && (x << 1u32)
            <= 0xff00_0000u32) || ((x << 1u32) == 0 && (y << 1u32) == 0)),
        same_value(SpecValue::Float64(p), SpecValue::Float64(q)) <==> ((p == q && (p << 1u64)
            <= 0xffe0_0000_0000_0000u64) || ((p << 1u64) == 0 && (q << 1u64) == 0)),
{
    assert(f32_equal(x, y) <==> ((x == y && (x << 1u32) <= 0xff00_0000u32) || ((x << 1u32) == 0
        && (y << 1u32) == 0))) by (bit_vector);
    assert(f64_equal(p, q) <==> ((p == q && (p << 1u64) <= 0xffe0_0000_0000_0000u64) || ((p
        << 1u64) == 0 && (q << 1u64) == 0))) by (bit_vector);
}

/// Looking a key up finds the first entry whose key equals it, whatever
/// that entry's value: entry `i` answers where its key equals `k` and no
/// earlier key does.
pub proof fn law_lookup_first_match(es: Seq<(SpecValue, SpecValue)>, k: SpecValue, i: int)
    requires
        0 <= i < es.len(),
        same_value(es[i].0, k),
        forall|j: int| 0 <= j < i ==> !same_value(#[trigger] es[j].0, k),
    ensures
        lookup(es, k) == Some(es[i].1),
    decreases i,
{
    if i > 0 {
        let t = es.subrange(1, es.len() as int);
        assert(!same_value(es[0].0, k));
        assert forall|j: int| 0 <= j < i - 1 implies !same_value(#[trigger] t[j].0, k) by {
            assert(t[j] == es[j + 1]);
        }
        assert(t[i - 1] == es[i]);
        law_lookup_first_match(t, k, i - 1);
    }
}

/// Looking up a key that no entry's key equals finds nothing.
pub proof fn law_lookup_absent(es: Seq<(SpecValue, SpecValue)>, k: SpecValue)
    requires
        forall|j: int| 0 <= j < es.len() ==> !same_value(#[trigger] es[j].0, k),
    ensures
        lookup(es, k) is None,
    decreases es.len(),
{
    if es.len() > 0 {
        let t = es.subrange(1, es.len() as int);
        assert(!same_value(es[0].0, k));
        assert forall|j: int| 0 <= j < t.len() implies !same_value(#[trigger] t[j].0, k) by {
            assert(t[j] == es[j + 1]);
        }
        law_lookup_absent(t, k);
    }
}

} // verus!
