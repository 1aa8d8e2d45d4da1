//! The messages of MessagePack RPC: the requests a client sends, and how it
//! takes apart what the server answers.
use crate::errors::ReadError;
use crate::value::{lemma_array_view, values_view, SpecValue, Value};
use vstd::prelude::*;

verus! {

/// The outcome of a call: the server's result, or the error it sent.
pub type RpcResult = Result<Value, Value>;

/// The request for calling `method` with `params`, under message id `msgid`.
pub open spec fn request_spec(msgid: u32, method: Seq<char>, params: Seq<SpecValue>) -> SpecValue {
    SpecValue::Array(
        seq![
            SpecValue::Int8(0),
            SpecValue::Uint32(msgid),
            SpecValue::Str(method),
            SpecValue::Array(params),
        ],
    )
}

/// The request message: `[0, msgid, method, params]`.
pub fn request(msgid: u32, method: String, params: Vec<Value>) -> (v: Value)
    ensures
        v@ == request_spec(msgid, method@, values_view(params@)),
{
    proof {
        lemma_array_view(params);
    }
    let mut items: Vec<Value> = Vec::new();
    items.push(Value::Int8(0));
    items.push(Value::Uint32(msgid));
    items.push(Value::String(method));
    items.push(Value::Array(params));
    proof {
        lemma_array_view(items);
        assert(values_view(items@) =~= seq![
            SpecValue::Int8(0),
            SpecValue::Uint32(msgid),
            SpecValue::Str(method@),
            SpecValue::Array(values_view(params@)),
        ]);
    }
    Value::Array(items)
}

/// The message id that a response carries, where it is an integer of at
/// most 32 bits; a negative one wraps around.
pub open spec fn msgid_of(v: SpecValue) -> Option<u32> {
    match v {
        SpecValue::Int8(i) => Some((if i < 0 { i + 0x1_0000_0000 } else { i as int }) as u32),
        SpecValue::Int16(i) => Some((if i < 0 { i + 0x1_0000_0000 } else { i as int }) as u32),
        SpecValue::Int32(i) => Some((if i < 0 { i + 0x1_0000_0000 } else { i as int }) as u32),
        SpecValue::Uint8(u) => Some(u as u32),
        SpecValue::Uint16(u) => Some(u as u32),
        SpecValue::Uint32(u) => Some(u),
        _ => None,
    }
}

/// The signed integer that a value holds, if any.
pub open spec fn int_of(v: SpecValue) -> Option<int> {
    match v {
        SpecValue::Int8(i) => Some(i as int),
        SpecValue::Int16(i) => Some(i as int),
        SpecValue::Int32(i) => Some(i as int),
        SpecValue::Int64(i) => Some(i as int),
        _ => None,
    }
}

/// The messages that a client can take apart: anything but an array, or an
/// array that starts with a signed integer; where that integer is 1 (a
/// response), the second item is a message id and a third item (the error)
/// follows, and where the error is nil, a fourth (the result).
pub open spec fn readable_message(v: SpecValue) -> bool {
    v matches SpecValue::Array(items) ==> {
        &&& items.len() >= 1
        &&& int_of(items[0]) is Some
        &&& int_of(items[0]) == Some(1int) ==> {
            &&& items.len() >= 3
            &&& msgid_of(items[1]) is Some
            &&& items[2] is Nil ==> items.len() >= 4
        }
    }
}

/// What a message received by a client says: for a response
/// `[1, msgid, error, result]`, the message id, and the error where it is
/// not nil, else the result. Other messages say nothing to the client.
pub open spec fn response_spec(v: SpecValue) -> Option<(u32, Result<SpecValue, SpecValue>)> {
    match v {
        SpecValue::Array(items) => if int_of(items[0]) == Some(1int) {
            Some(
                (
                    msgid_of(items[1]).unwrap(),
                    if items[2] is Nil {
                        Ok(items[3])
                    } else {
                        Err(items[2])
                    },
                ),
            )
        } else {
            None
        },
        _ => None,
    }
}

fn msgid_exec(v: &Value) -> (r: u32)
    requires
        msgid_of(v@) is Some,
    ensures
        r == msgid_of(v@).unwrap(),
{
    match v {
        Value::Int8(i) => if *i < 0 {
            (*i as i64 + 0x1_0000_0000) as u32
        } else {
            *i as u32
        },
        Value::Int16(i) => if *i < 0 {
            (*i as i64 + 0x1_0000_0000) as u32
        } else {
            *i as u32
        },
        Value::Int32(i) => if *i < 0 {
            (*i as i64 + 0x1_0000_0000) as u32
        } else {
            *i as u32
        },
        Value::Uint8(u) => *u as u32,
        Value::Uint16(u) => *u as u32,
        Value::Uint32(u) => *u,
        _ => 0,
    }
}

fn int_exec(v: &Value) -> (r: Option<i64>)
    ensures
        match int_of(v@) {
            Some(i) => r == Some(i as i64),
            None => r is None,
        },
{
    match v {
        Value::Int8(i) => Some(*i as i64),
        Value::Int16(i) => Some(*i as i64),
        Value::Int32(i) => Some(*i as i64),
        Value::Int64(i) => Some(*i),
        _ => None,
    }
}

/// Takes apart a message received by a client: a response gives its message
/// id and its outcome; anything else gives `None`.
pub fn response(v: Value) -> (r: Option<(u32, RpcResult)>)
    requires
        readable_message(v@),
    ensures
        match response_spec(v@) {
            Some((id, Ok(x))) => r matches Some((rid, Ok(rx))) && rid == id && rx@ == x,
            Some((id, Err(e))) => r matches Some((rid, Err(re))) && rid == id && re@ == e,
            None => r is None,
        },
{
    match v {
        Value::Array(items) => {
            proof {
                lemma_array_view(items);
            }
            let kind = int_exec(&items[0]);
            if kind != Some(1i64) {
                return None;
            }
            let mut items = items;
            let msgid = msgid_exec(&items[1]);
            if items[2].is_nil() {
                let result = items.remove(3);
                Some((msgid, Ok(result)))
            } else {
                let error = items.remove(2);
                Some((msgid, Err(error)))
            }
        },
        _ => None,
    }
}

/// Whether a client can take `v` apart (see [`readable_message`]).
pub fn readable(v: &Value) -> (r: bool)
    ensures
        r == readable_message(v@),
{
    match v {
        Value::Array(items) => {
            proof {
                lemma_array_view(*items);
            }
            if items.len() < 1 {
                return false;
            }
            match int_exec(&items[0]) {
                None => false,
                Some(k) => {
                    if k != 1 {
                        true
                    } else if items.len() < 3 {
                        false
                    } else if items[2].is_nil() && items.len() < 4 {
                        false
                    } else {
                        match &items[1] {
                            Value::Int8(_) | Value::Int16(_) | Value::Int32(_) | Value::Uint8(_)
                            | Value::Uint16(_) | Value::Uint32(_) => true,
                            _ => false,
                        }
                    }
                },
            }
        },
        _ => true,
    }
}

/// Whether a value is the stop signal: the byte 0 where a message begins,
/// which reads as the integer 0.
pub open spec fn is_stop(v: SpecValue) -> bool {
    v == SpecValue::Int8(0)
}

/// Whether a client's reading loop goes on after a read: it stops at the end
/// of the stream and at the stop signal (a 0 byte where a message begins),
/// and goes on after any other value. Other errors are outside what the loop
/// accepts.
pub fn keep_reading(r: &Result<Value, ReadError>) -> (b: bool)
    requires
        r is Ok || r matches Err(ReadError::NoData),
    ensures
        b == (r matches Ok(v) && !is_stop(v@)),
{
    match r {
        Ok(Value::Int8(0)) => false,
        Ok(_) => true,
        Err(_) => false,
    }
}

/* -- Laws -- */

/// A request is always four items: the request marker 0, the message id
/// as a 32-bit unsigned number, the method's name, and the array of all
/// the parameters, in order; no parameters make an empty array.
pub proof fn law_request_layout(msgid: u32, method: Seq<char>, params: Seq<SpecValue>)
    ensures
        ({
            &&& request_spec(msgid, method, params) matches SpecValue::Array(items)
            &&& items.len() == 4
            &&& items[0] == SpecValue::Int8(0)
            &&& items[1] == SpecValue::Uint32(msgid)
            &&& items[2] == SpecValue::Str(method)
            &&& items[3] matches SpecValue::Array(ps)
            &&& ps.len() == params.len()
            &&& forall|i: int| 0 <= i < ps.len() ==> #[trigger] ps[i] == params[i]
        }),
{
}

/// A message id is taken as its number: an unsigned one as it is, a
/// negative one as the 32-bit number that it is congruent to; a value of
/// any other kind is no message id.
pub proof fn law_msgid_is_the_number(
    a: u8,
    b: u16,
    c: u32,
    d: i8,
    e: i16,
    f: i32,
    other: SpecValue,
)
    ensures
        msgid_of(SpecValue::Uint8(a)) == Some(a as u32),
        msgid_of(SpecValue::Uint16(b)) == Some(b as u32),
        msgid_of(SpecValue::Uint32(c)) == Some(c),
        msgid_of(SpecValue::Int8(d)) matches Some(m) && (m - d) % 0x1_0000_0000 == 0,
        msgid_of(SpecValue::Int16(e)) matches Some(m) && (m - e) % 0x1_0000_0000 == 0,
        msgid_of(SpecValue::Int32(f)) matches Some(m) && (m - f) % 0x1_0000_0000 == 0,
        !(other is Uint8 || other is Uint16 || other is Uint32 || other is Int8 || other is Int16
            || other is Int32) ==> msgid_of(other) is None,
{
}

/// A response `[1, msgid, error, result]` answers the call whose id is
/// its message id, with the result where the error is nil and with the
/// error otherwise; a message whose first item is another integer answers
/// nothing.
pub proof fn law_response_answers(items: Seq<SpecValue>)
    requires
        readable_message(SpecValue::Array(items)),
    ensures
        int_of(items[0]) != Some(1int) ==> response_spec(SpecValue::Array(items)) is None,
        int_of(items[0]) == Some(1int) ==> {
            &&& response_spec(SpecValue::Array(items)) matches Some((id, outcome))
            &&& Some(id) == msgid_of(items[1])
            &&& items[2] is Nil ==> outcome == Ok::<SpecValue, SpecValue>(items[3])
            &&& !(items[2] is Nil) ==> outcome == Err::<SpecValue, SpecValue>(items[2])
        },
{
}

/// The kind of a message is read from a signed integer of any width, as
/// its number; no other value gives a kind.
pub proof fn law_message_kind(a: i8, b: i16, c: i32, d: i64, other: SpecValue)
    ensures
        int_of(SpecValue::Int8(a)) == Some(a as int),
        int_of(SpecValue::Int16(b)) == Some(b as int),
        int_of(SpecValue::Int32(c)) == Some(c as int),
        int_of(SpecValue::Int64(d)) == Some(d as int),
        !(other is Int8 || other is Int16 || other is Int32 || other is Int64) ==> int_of(other)
            is None,
{
}

/// The one value that stops a client's reading loop is the integer 0 that
/// a single 0 byte reads as; every other value, the integer 0 of a wider
/// kind included, lets it go on.
pub proof fn law_stop_signal(v: SpecValue)
    ensures
        is_stop(v) <==> (v is Int8 && v->Int8_0 == 0),
{
}

/// A client takes apart every message that is not an array, every array
/// that starts with a signed integer other than 1, every response
/// `[1, msgid, error]` with an error, and every response
/// `[1, msgid, nil, result]`, where the message id is an integer of at most
/// 32 bits.
pub proof fn law_readable_messages(
    v: SpecValue,
    items: Seq<SpecValue>,
    id: SpecValue,
    error: SpecValue,
    result: SpecValue,
)
    ensures
        !(v is Array) ==> readable_message(v),
        items.len() >= 1 && int_of(items[0]) is Some && int_of(items[0]) != Some(1int)
            ==> readable_message(SpecValue::Array(items)),
        msgid_of(id) is Some && !(error is Nil) ==> readable_message(
            SpecValue::Array(seq![SpecValue::Int8(1), id, error]),
        ),
        msgid_of(id) is Some ==> readable_message(
            SpecValue::Array(seq![SpecValue::Int8(1), id, SpecValue::Nil, result]),
        ),
{
}

} // verus!
